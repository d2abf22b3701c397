//! The board: where the mines lie, which cells are open or flagged, and whether
//! the game is lost.
use vstd::prelude::*;
use crate::geometry::{Position, in_bounds, cells, is_adjacent, adjacent, span, flat_index, marked};
use crate::geometry::{lemma_flat_index, lemma_marked_update, lemma_cells_finite, lemma_cells_len, lemma_fewer_closed};
use crate::random::random_range;

verus! {

/// What opening a closed cell revealed.
#[derive(Clone, Copy, Debug, PartialEq, Eq, Structural)]
pub enum OpenResult {
    /// The cell held a mine: the game is lost.
    Mine,
    /// The cell was safe; the number of mines around it.
    NoMine(u8),
}

/// A game of Minesweeper. Each cell state is kept in a row-major buffer of
/// `width * height` entries.
pub struct Minesweeper {
    width: usize,
    height: usize,
    open_fields: Vec<bool>,
    mines: Vec<bool>,
    flagged_fields: Vec<bool>,
    mine_total: usize,
    flag_total: usize,
    lost: bool,
}

impl Minesweeper {
    /// Number of columns.
    pub closed spec fn spec_width(&self) -> nat {
        self.width as nat
    }

    /// Number of rows.
    pub closed spec fn spec_height(&self) -> nat {
        self.height as nat
    }

    /// The cells that hold a mine.
    pub closed spec fn mine_set(&self) -> Set<Position> {
        marked(self.width as nat, self.height as nat, self.mines@)
    }

    /// The cells that have been opened.
    pub closed spec fn opened(&self) -> Set<Position> {
        marked(self.width as nat, self.height as nat, self.open_fields@)
    }

    /// The cells that carry a flag.
    pub closed spec fn flagged(&self) -> Set<Position> {
        marked(self.width as nat, self.height as nat, self.flagged_fields@)
    }

    /// Whether a mine has been opened.
    pub closed spec fn spec_lost(&self) -> bool {
        self.lost
    }

    /// `p` lies on this board.
    pub open spec fn on_board(&self, p: Position) -> bool {
        in_bounds(self.spec_width(), self.spec_height(), p)
    }

    /// The cells adjacent to `p`.
    pub open spec fn around(&self, p: Position) -> Set<Position> {
        adjacent(self.spec_width(), self.spec_height(), p)
    }

    /// How many mines lie next to `p`.
    pub open spec fn mines_around(&self, p: Position) -> nat {
        self.around(p).intersect(self.mine_set()).len()
    }

    /// How many flags lie next to `p`.
    pub open spec fn flags_around(&self, p: Position) -> nat {
        self.around(p).intersect(self.flagged()).len()
    }

    /// The board is well formed: its buffers match its size, the counters match
    /// the sets, and no cell is both open and flagged.
    pub closed spec fn wf(&self) -> bool {
        &&& self.width > 0
        &&& self.height > 0
        &&& self.width * self.height <= usize::MAX
        &&& self.open_fields@.len() == self.width * self.height
        &&& self.mines@.len() == self.width * self.height
        &&& self.flagged_fields@.len() == self.width * self.height
        &&& self.mine_total == self.mine_set().len()
        &&& self.flag_total == self.flagged().len()
        &&& self.opened().disjoint(self.flagged())
    }

    /// Width, height and mines are those of `other`.
    pub open spec fn same_field(&self, other: &Minesweeper) -> bool {
        &&& self.spec_width() == other.spec_width()
        &&& self.spec_height() == other.spec_height()
        &&& self.mine_set() == other.mine_set()
    }

    /// On a well-formed board every set of cells is finite and lies on the
    /// board, and no cell is both open and flagged.
    pub proof fn lemma_sets_finite(&self)
        requires
            self.wf(),
        ensures
            self.opened().disjoint(self.flagged()),
            self.mine_set().finite(),
            self.opened().finite(),
            self.flagged().finite(),
            self.mine_set().subset_of(cells(self.spec_width(), self.spec_height())),
            self.opened().subset_of(cells(self.spec_width(), self.spec_height())),
            self.flagged().subset_of(cells(self.spec_width(), self.spec_height())),
    {
        let (w, h) = (self.width as nat, self.height as nat);
        lemma_cells_finite(w, h);
        vstd::set_lib::lemma_len_subset(self.mine_set(), cells(w, h));
        vstd::set_lib::lemma_len_subset(self.opened(), cells(w, h));
        vstd::set_lib::lemma_len_subset(self.flagged(), cells(w, h));
    }

    fn index(&self, p: Position) -> (r: usize)
        requires
            self.wf(),
            self.on_board(p),
        ensures
            r == flat_index(self.spec_width(), p),
            r < self.width * self.height,
    {
        proof {
            lemma_flat_index(self.width as nat, self.height as nat, p, p);
        }
        p.1 * self.width + p.0
    }

    /// Number of columns.
    pub fn width(&self) -> (r: usize)
        ensures
            r == self.spec_width(),
    {
        self.width
    }

    /// Number of rows.
    pub fn height(&self) -> (r: usize)
        ensures
            r == self.spec_height(),
    {
        self.height
    }

    /// Whether a mine has been opened.
    pub fn is_lost(&self) -> (r: bool)
        ensures
            r == self.spec_lost(),
    {
        self.lost
    }

    /// How many mines the board holds.
    pub fn mine_count(&self) -> (r: usize)
        requires
            self.wf(),
        ensures
            r == self.mine_set().len(),
    {
        self.mine_total
    }

    /// How many flags are set.
    pub fn flag_count(&self) -> (r: usize)
        requires
            self.wf(),
        ensures
            r == self.flagged().len(),
    {
        self.flag_total
    }

    /// Whether `p` holds a mine; `false` off the board.
    pub fn is_mine(&self, p: Position) -> (r: bool)
        requires
            self.wf(),
        ensures
            r == self.mine_set().contains(p),
    {
        if p.0 < self.width && p.1 < self.height {
            self.mines[self.index(p)]
        } else {
            false
        }
    }

    /// Whether `p` has been opened; `false` off the board.
    pub fn is_open(&self, p: Position) -> (r: bool)
        requires
            self.wf(),
        ensures
            r == self.opened().contains(p),
    {
        if p.0 < self.width && p.1 < self.height {
            self.open_fields[self.index(p)]
        } else {
            false
        }
    }

    /// Whether `p` carries a flag; `false` off the board.
    pub fn is_flagged(&self, p: Position) -> (r: bool)
        requires
            self.wf(),
        ensures
            r == self.flagged().contains(p),
    {
        if p.0 < self.width && p.1 < self.height {
            self.flagged_fields[self.index(p)]
        } else {
            false
        }
    }

    /// The cells adjacent to `p`, each once. On a board at least two cells wide
    /// and high a corner has 3, another border cell 5, and an inner cell 8.
    pub fn iter_neighbors(&self, p: Position) -> (r: Vec<Position>)
        requires
            self.wf(),
            self.on_board(p),
        ensures
            r@.no_duplicates(),
            forall|q: Position| r@.contains(q) <==> #[trigger] self.around(p).contains(q),
            !r@.contains(p),
            forall|k: int| 0 <= k < r.len() ==> self.on_board(#[trigger] r@[k]),
            self.around(p).finite(),
            self.around(p).len() == r.len(),
            r.len() + 1 == span(p.0 as nat, self.spec_width()) * span(p.1 as nat, self.spec_height()),
            self.spec_width() >= 2 && self.spec_height() >= 2 ==> r.len() == (
            if (p.0 == 0 || p.0 + 1 == self.spec_width()) && (p.1 == 0 || p.1 + 1 == self.spec_height()) {
                3nat
            } else if p.0 == 0 || p.0 + 1 == self.spec_width() || p.1 == 0 || p.1 + 1 == self.spec_height() {
                5nat
            } else {
                8nat
            }),
    {
        let x0: usize = if p.0 > 0 { p.0 - 1 } else { 0 };
        let x1: usize = if p.0 + 1 < self.width { p.0 + 1 } else { p.0 };
        let y0: usize = if p.1 > 0 { p.1 - 1 } else { 0 };
        let y1: usize = if p.1 + 1 < self.height { p.1 + 1 } else { p.1 };
        let ghost sy: int = y1 - y0 + 1;
        let mut r: Vec<Position> = Vec::new();
        let mut i: usize = x0;
        while i <= x1
            invariant
                x0 <= i <= x1 + 1,
                x0 == if p.0 > 0 { p.0 - 1 } else { 0 },
                x1 == if p.0 + 1 < self.width { p.0 + 1 } else { p.0 as int },
                y0 == if p.1 > 0 { p.1 - 1 } else { 0 },
                y1 == if p.1 + 1 < self.height { p.1 + 1 } else { p.1 as int },
                self.on_board(p),
                sy == y1 - y0 + 1,
                r@.no_duplicates(),
                forall|k: int| 0 <= k < r.len() ==> (#[trigger] r@[k]).0 < i,
                forall|k: int| 0 <= k < r.len() ==> self.around(p).contains(#[trigger] r@[k]),
                forall|q: Position| #[trigger] self.around(p).contains(q) && q.0 < i ==> r@.contains(q),
                r.len() + (if p.0 < i { 1int } else { 0int }) == (i - x0) * sy,
            decreases x1 + 1 - i,
        {
            let ghost start = r.len();
            let mut j: usize = y0;
            while j <= y1
                invariant
                    x0 <= i <= x1,
                    y0 <= j <= y1 + 1,
                    x0 == if p.0 > 0 { p.0 - 1 } else { 0 },
                    x1 == if p.0 + 1 < self.width { p.0 + 1 } else { p.0 as int },
                    y0 == if p.1 > 0 { p.1 - 1 } else { 0 },
                    y1 == if p.1 + 1 < self.height { p.1 + 1 } else { p.1 as int },
                    self.on_board(p),
                    r@.no_duplicates(),
                    forall|k: int| 0 <= k < r.len() ==> (#[trigger] r@[k]).0 < i || (r@[k].0 == i && r@[k].1 < j),
                    forall|k: int| 0 <= k < r.len() ==> self.around(p).contains(#[trigger] r@[k]),
                    forall|q: Position| #[trigger] self.around(p).contains(q) && (q.0 < i || (q.0 == i && q.1 < j)) ==> r@.contains(q),
                    r.len() + (if p.0 == i && p.1 < j { 1int } else { 0int }) == start + (j - y0),
                decreases y1 + 1 - j,
            {
                if i != p.0 || j != p.1 {
                    proof {
                        assert forall|k: int| 0 <= k < r.len() implies r@[k] != (i, j) by {
                            assert(r@[k].0 < i || (r@[k].0 == i && r@[k].1 < j));
                        }
                    }
                    assert(self.around(p).contains((i, j)));
                    let ghost before = r@;
                    r.push((i, j));
                    proof {
                        assert(r@ == before.push((i, j)));
                        assert forall|q: Position| #[trigger] self.around(p).contains(q) && (q.0 < i || (q.0 == i && q.1 < j + 1)) implies r@.contains(q) by {
                            if q == (i, j) {
                                assert(r@[r.len() - 1] == q);
                            } else {
                                let m = choose|m: int| 0 <= m < before.len() && before[m] == q;
                                assert(r@[m] == q);
                            }
                        }
                    }
                }
                j += 1;
            }
            assert((i + 1 - x0) * sy == (i - x0) * sy + sy) by (nonlinear_arith);
            i += 1;
        }
        proof {
            assert(r@.to_set() =~= self.around(p));
            r@.unique_seq_to_set();
            assert(span(p.0 as nat, self.spec_width()) == x1 - x0 + 1);
            assert(span(p.1 as nat, self.spec_height()) == sy);
        }
        r
    }

    /// How many cells next to `p` are set in `grid`.
    fn count_around(&self, grid: &Vec<bool>, p: Position) -> (r: usize)
        requires
            self.wf(),
            self.on_board(p),
            grid@.len() == self.width * self.height,
        ensures
            r == self.around(p).intersect(marked(self.spec_width(), self.spec_height(), grid@)).len(),
            r <= 8,
    {
        let ghost g = marked(self.spec_width(), self.spec_height(), grid@);
        let ns = self.iter_neighbors(p);
        proof {
            let (sx, sy) = (span(p.0 as nat, self.spec_width()), span(p.1 as nat, self.spec_height()));
            assert(sx * sy <= 9) by (nonlinear_arith)
                requires sx <= 3, sy <= 3;
        }
        let ghost seen: Set<Position> = Set::empty();
        assert(seen =~= ns@.take(0).to_set().intersect(g));
        let mut count: usize = 0;
        let mut k: usize = 0;
        while k < ns.len()
            invariant
                self.wf(),
                self.on_board(p),
                grid@.len() == self.width * self.height,
                g == marked(self.spec_width(), self.spec_height(), grid@),
                k <= ns.len(),
                ns@.no_duplicates(),
                ns.len() <= 8,
                forall|i: int| 0 <= i < ns.len() ==> self.on_board(#[trigger] ns@[i]),
                seen.finite(),
                count == seen.len(),
                count <= k,
                seen == ns@.take(k as int).to_set().intersect(g),
            decreases ns.len() - k,
        {
            let q = ns[k];
            let idx = self.index(q);
            let ghost k0 = k as int;
            proof {
                assert(g.contains(q) == grid@[idx as int]);
                assert(ns@.take(k as int + 1) =~= ns@.take(k as int).push(q));
                assert(!ns@.take(k as int).contains(q)) by {
                    if ns@.take(k as int).contains(q) {
                        let i = choose|i: int| 0 <= i < k && ns@.take(k as int)[i] == q;
                        assert(ns@[i] == ns@[k as int]);
                    }
                }
            }
            if grid[idx] {
                proof {
                    seen = seen.insert(q);
                }
                count += 1;
            }
            k += 1;
            proof {
                ns@.take(k0).lemma_push_to_set_commute(q);
                assert(seen =~= ns@.take(k as int).to_set().intersect(g));
            }
        }
        proof {
            assert(ns@.take(k as int) =~= ns@);
            assert(seen =~= self.around(p).intersect(g));
        }
        count
    }
    /// How many mines lie next to `p`.
    pub fn neighboring_mines(&self, p: Position) -> (r: u8)
        requires
            self.wf(),
            self.on_board(p),
        ensures
            r == self.mines_around(p),
            r <= 8,
    {
        self.count_around(&self.mines, p) as u8
    }

    /// A buffer of `n` cleared entries.
    fn cleared(n: usize) -> (r: Vec<bool>)
        ensures
            r@.len() == n,
            forall|i: int| 0 <= i < n ==> !r@[i],
    {
        let mut r: Vec<bool> = Vec::new();
        while r.len() < n
            invariant
                r@.len() <= n,
                forall|i: int| 0 <= i < r@.len() ==> !r@[i],
            decreases n - r@.len(),
        {
            r.push(false);
        }
        r
    }

    /// Every cell of the board, each once, row by row.
    fn all_cells(&self) -> (r: Vec<Position>)
        requires
            self.wf(),
        ensures
            r@.no_duplicates(),
            r.len() == self.width * self.height,
            forall|k: int| 0 <= k < r.len() ==> self.on_board(#[trigger] r@[k]),
    {
        let mut r: Vec<Position> = Vec::new();
        let mut y: usize = 0;
        while y < self.height
            invariant
                self.wf(),
                y <= self.height,
                r@.no_duplicates(),
                r.len() == y * self.width,
                forall|k: int| 0 <= k < r.len() ==> self.on_board(#[trigger] r@[k]) && r@[k].1 < y,
            decreases self.height - y,
        {
            let mut x: usize = 0;
            while x < self.width
                invariant
                    self.wf(),
                    y < self.height,
                    x <= self.width,
                    r@.no_duplicates(),
                    r.len() == y * self.width + x,
                    forall|k: int| 0 <= k < r.len() ==> self.on_board(#[trigger] r@[k]) && (r@[k].1 < y
                        || (r@[k].1 == y && r@[k].0 < x)),
                decreases self.width - x,
            {
                proof {
                    assert(y * self.width + x < self.width * self.height) by (nonlinear_arith)
                        requires x < self.width, y < self.height;
                    assert forall|k: int| 0 <= k < r.len() implies r@[k] != (x, y) by {
                        assert(r@[k].1 < y || (r@[k].1 == y && r@[k].0 < x));
                    }
                }
                r.push((x, y));
                x += 1;
            }
            assert((y + 1) * self.width == y * self.width + self.width) by (nonlinear_arith);
            y += 1;
        }
        assert(y * self.width == self.width * self.height) by (nonlinear_arith)
            requires y == self.height;
        r
    }

    /// A board of `width` by `height` cells with no mine, nothing opened or flagged.
    fn empty(width: usize, height: usize) -> (r: Minesweeper)
        requires
            width > 0,
            height > 0,
            width * height <= usize::MAX,
        ensures
            r.wf(),
            r.spec_width() == width,
            r.spec_height() == height,
            r.mine_set() == Set::<Position>::empty(),
            r.opened() == Set::<Position>::empty(),
            r.flagged() == Set::<Position>::empty(),
            !r.spec_lost(),
    {
        let n = width * height;
        let board = Minesweeper {
            width,
            height,
            open_fields: Self::cleared(n),
            mines: Self::cleared(n),
            flagged_fields: Self::cleared(n),
            mine_total: 0,
            flag_total: 0,
            lost: false,
        };
        proof {
            assert forall|q: Position| board.on_board(q) implies 0 <= #[trigger] flat_index(width as nat, q) < n by {
                lemma_flat_index(width as nat, height as nat, q, q);
            }
            assert(board.mine_set() =~= Set::empty());
            assert(board.opened() =~= Set::empty());
            assert(board.flagged() =~= Set::empty());
        }
        board
    }

    /// Puts a mine on the free cell `p`.
    fn place_mine(&mut self, p: Position)
        requires
            old(self).wf(),
            old(self).on_board(p),
            !old(self).mine_set().contains(p),
        ensures
            final(self).wf(),
            final(self).spec_width() == old(self).spec_width(),
            final(self).spec_height() == old(self).spec_height(),
            final(self).mine_set() == old(self).mine_set().insert(p),
            final(self).opened() == old(self).opened(),
            final(self).flagged() == old(self).flagged(),
            final(self).spec_lost() == old(self).spec_lost(),
    {
        let i = self.index(p);
        proof {
            lemma_marked_update(self.width as nat, self.height as nat, self.mines@, p, true);
            lemma_cells_len(self.spec_width(), self.spec_height());
            vstd::set_lib::lemma_len_subset(self.mine_set().insert(p), cells(self.spec_width(), self.spec_height()));
        }
        self.mines.set(i, true);
        self.mine_total = self.mine_total + 1;
    }

    /// A board of `width` by `height` cells whose mines are the positions in
    /// `mines` (a position listed twice holds one mine), none opened or flagged.
    pub fn with_mines(width: usize, height: usize, mines: &Vec<Position>) -> (r: Minesweeper)
        requires
            width > 0,
            height > 0,
            width * height <= usize::MAX,
            forall|k: int| 0 <= k < mines.len() ==> in_bounds(width as nat, height as nat, #[trigger] mines@[k]),
        ensures
            r.wf(),
            r.spec_width() == width,
            r.spec_height() == height,
            r.mine_set() == mines@.to_set(),
            r.opened() == Set::<Position>::empty(),
            r.flagged() == Set::<Position>::empty(),
            !r.spec_lost(),
    {
        let mut board = Self::empty(width, height);
        let mut k: usize = 0;
        while k < mines.len()
            invariant
                board.wf(),
                board.spec_width() == width,
                board.spec_height() == height,
                board.opened() == Set::<Position>::empty(),
                board.flagged() == Set::<Position>::empty(),
                !board.spec_lost(),
                k <= mines.len(),
                forall|k: int| 0 <= k < mines.len() ==> in_bounds(width as nat, height as nat, #[trigger] mines@[k]),
                board.mine_set() == mines@.take(k as int).to_set(),
            decreases mines.len() - k,
        {
            let p = mines[k];
            proof {
                assert(mines@.take(k as int + 1) =~= mines@.take(k as int).push(p));
                mines@.take(k as int).lemma_push_to_set_commute(p);
            }
            if !board.is_mine(p) {
                board.place_mine(p);
            } else {
                assert(board.mine_set().insert(p) =~= board.mine_set());
            }
            k += 1;
        }
        assert(mines@.take(k as int) =~= mines@);
        board
    }

    /// A board of `width` by `height` cells holding `mine_count` mines, none
    /// opened or flagged. Each mine is drawn uniformly from the cells still free.
    pub fn new(width: usize, height: usize, mine_count: usize) -> (r: Minesweeper)
        requires
            width > 0,
            height > 0,
            width * height <= usize::MAX,
            mine_count <= width * height,
        ensures
            r.wf(),
            r.spec_width() == width,
            r.spec_height() == height,
            r.mine_set().len() == mine_count,
            r.opened() == Set::<Position>::empty(),
            r.flagged() == Set::<Position>::empty(),
            !r.spec_lost(),
    {
        let mut board = Self::empty(width, height);
        let mut free = board.all_cells();
        let mut placed: usize = 0;
        while placed < mine_count
            invariant
                board.wf(),
                board.spec_width() == width,
                board.spec_height() == height,
                board.opened() == Set::<Position>::empty(),
                board.flagged() == Set::<Position>::empty(),
                !board.spec_lost(),
                mine_count <= width * height,
                placed <= mine_count,
                board.mine_set().len() == placed,
                free.len() + placed == width * height,
                free@.no_duplicates(),
                forall|k: int| 0 <= k < free.len() ==> board.on_board(#[trigger] free@[k])
                    && !board.mine_set().contains(free@[k]),
            decreases mine_count - placed,
        {
            let k = random_range(0, free.len());
            let ghost before = free@;
            let p = free.swap_remove(k);
            proof {
                assert forall|a: int, b: int| 0 <= a < b < free.len() implies free@[a] != free@[b] by {
                    let a0 = if a == k { before.len() - 1 } else { a };
                    let b0 = if b == k { before.len() - 1 } else { b };
                    assert(free@[a] == before[a0] && free@[b] == before[b0]);
                }
                assert forall|j: int| 0 <= j < free.len() implies #[trigger] free@[j] != p by {
                    let j0 = if j == k { before.len() - 1 } else { j };
                    assert(free@[j] == before[j0]);
                }
            }
            proof {
                board.lemma_sets_finite();
            }
            board.place_mine(p);
            placed += 1;
        }
        board
    }
    /// Nothing a player can see has changed from `before`.
    pub open spec fn unchanged_from(&self, before: &Minesweeper) -> bool {
        &&& self.same_field(before)
        &&& self.opened() == before.opened()
        &&& self.flagged() == before.flagged()
        &&& self.spec_lost() == before.spec_lost()
    }

    /// The cells opened beyond `base` hold no mine, and each of them with no
    /// mine around has all its unflagged neighbours open.
    pub open spec fn flood_from(&self, base: Set<Position>) -> bool {
        &&& forall|q: Position| #[trigger] self.opened().contains(q) && !base.contains(q)
            ==> !self.mine_set().contains(q)
        &&& forall|q: Position, s: Position|
            #[trigger] self.opened().contains(q) && #[trigger] self.around(q).contains(s)
            && !base.contains(q) && self.mines_around(q) == 0 && !self.flagged().contains(s)
            ==> self.opened().contains(s)
    }

    /// `q` is a neighbour of `p` that a chord on `p` would open: neither flagged nor open.
    pub open spec fn chord_target(&self, p: Position, q: Position) -> bool {
        &&& self.around(p).contains(q)
        &&& !self.flagged().contains(q)
        &&& !self.opened().contains(q)
    }

    /// `log` lists, each with the index of the cell it was reached from in
    /// `parent` (negative for a root), exactly the cells open beyond `base`:
    /// each non-root entry is next to an earlier one with no mine around it,
    /// and each root entry lies in `roots`.
    #[verifier::opaque]
    pub open spec fn flood_log(
        &self,
        base: Set<Position>,
        roots: Set<Position>,
        log: Seq<Position>,
        parent: Seq<int>,
    ) -> bool {
        &&& log.len() == parent.len()
        &&& forall|q: Position| #![trigger log.contains(q)] #![trigger self.opened().contains(q)]
            self.opened().contains(q) && !base.contains(q) <==> log.contains(q)
        &&& forall|i: int| 0 <= i < log.len() ==> #[trigger] parent[i] < i
        &&& forall|i: int| 0 <= i < log.len() && parent[i] < 0 ==> roots.contains(#[trigger] log[i])
        &&& forall|i: int| 0 <= i < log.len() && 0 <= #[trigger] parent[i] ==> self.mines_around(log[parent[i]]) == 0
            && self.around(log[parent[i]]).contains(log[i])
    }

    /// Every cell open beyond `base` is reached from `roots` by steps from
    /// cells open beyond `base` with no mine around them.
    pub open spec fn spread_from(&self, base: Set<Position>, roots: Set<Position>) -> bool {
        exists|log: Seq<Position>, parent: Seq<int>| #[trigger] self.flood_log(base, roots, log, parent)
    }

    /// The neighbours of `p` that a chord on `p` would open.
    pub open spec fn chord_targets(&self, p: Position) -> Set<Position> {
        Set::new(|q: Position| self.chord_target(p, q))
    }

    /// A log of a flood from `cur` extends a log of a flood from `base`; the
    /// roots of the later flood hang off entry `link`, or are roots themselves
    /// when `link` is negative.
    proof fn lemma_log_chain(
        &self,
        after: &Minesweeper,
        base: Set<Position>,
        roots: Set<Position>,
        log: Seq<Position>,
        parent: Seq<int>,
        q: Position,
        ilog: Seq<Position>,
        iparent: Seq<int>,
        link: int,
    )
        requires
            self.flood_log(base, roots, log, parent),
            after.flood_log(self.opened(), set![q], ilog, iparent),
            after.same_field(self),
            base.subset_of(self.opened()),
            self.opened().subset_of(after.opened()),
            link < 0 ==> roots.contains(q),
            link >= 0 ==> link < log.len() && self.mines_around(log[link]) == 0 && self.around(log[link]).contains(q),
        ensures
            after.flood_log(
                base,
                roots,
                log + ilog,
                parent + iparent.map_values(|x: int| if x < 0 { link } else { x + log.len() }),
            ),
    {
        reveal(Minesweeper::flood_log);
        let off = log.len();
        let log2 = log + ilog;
        let par2 = parent + iparent.map_values(|x: int| if x < 0 { link } else { x + off });
        assert forall|x: Position| log2.contains(x) <==> log.contains(x) || ilog.contains(x) by {
            if log2.contains(x) {
                let i = choose|i: int| 0 <= i < log2.len() && log2[i] == x;
                if i >= off {
                    assert(ilog[i - off] == x);
                }
            }
            if log.contains(x) {
                let i = choose|i: int| 0 <= i < log.len() && log[i] == x;
                assert(log2[i] == x);
            }
            if ilog.contains(x) {
                let i = choose|i: int| 0 <= i < ilog.len() && ilog[i] == x;
                assert(log2[i + off] == x);
            }
        }
        assert forall|x: Position| after.opened().contains(x) && !base.contains(x) <==> #[trigger] log2.contains(x) by {
            if after.opened().contains(x) && !base.contains(x) && !self.opened().contains(x) {
                assert(ilog.contains(x));
            }
            if self.opened().contains(x) && !base.contains(x) {
                assert(log.contains(x));
            }
            if log.contains(x) {
                assert(self.opened().contains(x));
            }
            if ilog.contains(x) {
                assert(after.opened().contains(x));
            }
        }
        assert forall|i: int| 0 <= i < log2.len() && 0 <= #[trigger] par2[i] implies after.mines_around(log2[par2[i]]) == 0
            && after.around(log2[par2[i]]).contains(log2[i]) by {
            if i < off {
                assert(log2[par2[i]] == log[parent[i]]);
            } else if iparent[i - off] < 0 {
                assert(ilog[i - off] == q);
            } else {
                assert(log2[par2[i]] == ilog[iparent[i - off]]);
            }
        }
        assert forall|i: int| 0 <= i < log2.len() && par2[i] < 0 implies roots.contains(#[trigger] log2[i]) by {
            if i >= off {
                assert(iparent[i - off] < 0);
                assert(ilog[i - off] == q);
            }
        }
        assert forall|i: int| 0 <= i < log2.len() implies #[trigger] par2[i] < i by {
            if i >= off {
                assert(iparent[i - off] < i - off);
            }
        }
    }

    /// Opening the closed cell `p` of `before` gave `after` and `r`: nothing
    /// happens when the game is lost or `p` is flagged; a mine loses the game;
    /// a safe cell tells its count and, when that is zero, floods on.
    pub open spec fn reveal_post(before: Minesweeper, after: Minesweeper, p: Position, r: Option<OpenResult>) -> bool {
        &&& after.wf()
        &&& after.same_field(&before)
        &&& after.flagged() == before.flagged()
        &&& before.opened().subset_of(after.opened())
        &&& if before.spec_lost() || before.flagged().contains(p) {
            r is None && after.unchanged_from(&before)
        } else if before.mine_set().contains(p) {
            &&& r == Some(OpenResult::Mine)
            &&& after.spec_lost()
            &&& after.opened() == before.opened().insert(p)
        } else {
            &&& r == Some(OpenResult::NoMine(before.mines_around(p) as u8))
            &&& !after.spec_lost()
            &&& after.opened().contains(p)
            &&& after.flood_from(before.opened())
            &&& after.spread_from(before.opened(), set![p])
            &&& before.mines_around(p) != 0 ==> after.opened() == before.opened().insert(p)
        }
    }

    /// A chord on the open cell `p` of `before` gave `after`: when as many flags as
    /// mines lie around `p` and the game is not lost, every target is opened, and
    /// the game is lost exactly when a target holds a mine.
    pub open spec fn chord_post(before: Minesweeper, after: Minesweeper, p: Position) -> bool {
        &&& after.wf()
        &&& after.same_field(&before)
        &&& after.flagged() == before.flagged()
        &&& before.opened().subset_of(after.opened())
        &&& if before.mines_around(p) != before.flags_around(p) || before.spec_lost() {
            after.unchanged_from(&before)
        } else {
            &&& after.spec_lost() <==> exists|q: Position| #[trigger] before.chord_target(p, q)
                && before.mine_set().contains(q)
            &&& !after.spec_lost() ==> forall|q: Position| #[trigger] before.chord_target(p, q)
                ==> after.opened().contains(q)
            &&& !after.spec_lost() ==> after.flood_from(before.opened())
            &&& !after.spec_lost() ==> after.spread_from(before.opened(), before.chord_targets(p))
        }
    }

    /// What `open(p)` does: nothing off the board, a chord on an open cell, and
    /// otherwise the opening of a closed cell.
    pub open spec fn open_post(before: Minesweeper, after: Minesweeper, p: Position, r: Option<OpenResult>) -> bool {
        if !before.on_board(p) {
            r is None && after.wf() && after.unchanged_from(&before)
        } else if before.opened().contains(p) {
            r is None && Self::chord_post(before, after, p)
        } else {
            Self::reveal_post(before, after, p, r)
        }
    }

    /// Toggling the flag of `pos` on `before` gave `after`.
    pub open spec fn toggle_post(before: Minesweeper, after: Minesweeper, pos: Position) -> bool {
        &&& after.wf()
        &&& after.same_field(&before)
        &&& after.opened() == before.opened()
        &&& after.spec_lost() == before.spec_lost()
        &&& after.flagged() == if before.spec_lost() || before.opened().contains(pos) || !before.on_board(pos) {
            before.flagged()
        } else if before.flagged().contains(pos) {
            before.flagged().remove(pos)
        } else {
            before.flagged().insert(pos)
        }
    }

    /// A flood from `base` that went on from the cells `self` had open stays a flood from `base`.
    proof fn lemma_flood_chain(&self, after: &Minesweeper, base: Set<Position>)
        requires
            self.flood_from(base),
            after.flood_from(self.opened()),
            after.same_field(self),
            after.flagged() == self.flagged(),
            self.opened().subset_of(after.opened()),
        ensures
            after.flood_from(base),
    {
        assert forall|q: Position, s: Position|
            #[trigger] after.opened().contains(q) && #[trigger] after.around(q).contains(s)
            && !base.contains(q) && after.mines_around(q) == 0 && !after.flagged().contains(s)
            implies after.opened().contains(s) by {
            if self.opened().contains(q) {
                assert(self.around(q).contains(s));
            }
        }
    }

    /// No mine lies next to `p` when none is counted there.
    proof fn lemma_no_mine_around(&self, p: Position, q: Position)
        requires
            self.wf(),
            self.around(p).finite(),
            self.mines_around(p) == 0,
            self.around(p).contains(q),
        ensures
            !self.mine_set().contains(q),
    {
        let s = self.around(p).intersect(self.mine_set());
        vstd::set_lib::lemma_len_subset(s, self.around(p));
        s.lemma_len0_is_empty();
        assert(!s.contains(q));
    }

    fn mark_open(&mut self, p: Position)
        requires
            old(self).wf(),
            old(self).on_board(p),
            !old(self).flagged().contains(p),
        ensures
            final(self).wf(),
            final(self).same_field(old(self)),
            final(self).flagged() == old(self).flagged(),
            final(self).spec_lost() == old(self).spec_lost(),
            final(self).opened() == old(self).opened().insert(p),
    {
        let i = self.index(p);
        proof {
            lemma_marked_update(self.width as nat, self.height as nat, self.open_fields@, p, true);
        }
        self.open_fields.set(i, true);
    }

    /// Flags `pos` when it carries no flag and takes its flag away when it does;
    /// nothing happens once the game is lost, on an open cell, or off the board.
    pub fn toggle_flag(&mut self, pos: Position)
        requires
            old(self).wf(),
        ensures
            Self::toggle_post(*old(self), *final(self), pos),
    {
        if self.lost || !(pos.0 < self.width && pos.1 < self.height) || self.is_open(pos) {
            return;
        }
        let i = self.index(pos);
        let flagged = self.flagged_fields[i];
        proof {
            lemma_marked_update(self.width as nat, self.height as nat, self.flagged_fields@, pos, !flagged);
            self.lemma_sets_finite();
            lemma_cells_len(self.spec_width(), self.spec_height());
            vstd::set_lib::lemma_len_subset(self.flagged().insert(pos), cells(self.spec_width(), self.spec_height()));
        }
        self.flagged_fields.set(i, !flagged);
        if flagged {
            self.flag_total = self.flag_total - 1;
        } else {
            self.flag_total = self.flag_total + 1;
        }
    }

    /// Opens the closed cell `p`, flooding on from it while no mine lies around.
    fn open_closed(&mut self, p: Position) -> (r: (Option<OpenResult>, Ghost<Seq<Position>>, Ghost<Seq<int>>))
        requires
            old(self).wf(),
            old(self).on_board(p),
            !old(self).opened().contains(p),
        ensures
            Self::reveal_post(*old(self), *final(self), p, r.0),
            !old(self).spec_lost() && !old(self).flagged().contains(p) && !old(self).mine_set().contains(p)
                ==> final(self).flood_log(old(self).opened(), set![p], r.1@, r.2@),
        decreases cells(old(self).spec_width(), old(self).spec_height()).difference(old(self).opened()).len(),
    {
        if self.lost || self.is_flagged(p) {
            return (None, Ghost(Seq::empty()), Ghost(Seq::empty()));
        }
        let ghost before = *self;
        self.mark_open(p);
        if self.is_mine(p) {
            self.lost = true;
            return (Some(OpenResult::Mine), Ghost(Seq::empty()), Ghost(Seq::empty()));
        }
        let ghost mut log: Seq<Position> = seq![p];
        let ghost mut parent: Seq<int> = seq![-1int];
        proof {
            reveal(Minesweeper::flood_log);
            assert forall|q: Position| self.opened().contains(q) && !before.opened().contains(q) <==> log.contains(q) by {
                if q == p {
                    assert(log[0] == p);
                }
            }
            assert(self.flood_log(before.opened(), set![p], log, parent));
        }
        let count = self.neighboring_mines(p);
        if count == 0 {
            let ns = self.iter_neighbors(p);
            let mut k: usize = 0;
            while k < ns.len()
                invariant
                    self.wf(),
                    self.same_field(&before),
                    self.flagged() == before.flagged(),
                    !self.spec_lost(),
                    before == *old(self),
                    before.wf(),
                    before.on_board(p),
                    !before.opened().contains(p),
                    !before.mine_set().contains(p),
                    before.mines_around(p) == 0,
                    before.around(p).finite(),
                    before.opened().insert(p).subset_of(self.opened()),
                    self.flood_from(before.opened().insert(p)),
                    self.flood_log(before.opened(), set![p], log, parent),
                    log.len() > 0,
                    log[0] == p,
                    k <= ns.len(),
                    forall|q: Position| ns@.contains(q) <==> #[trigger] before.around(p).contains(q),
                    forall|j: int| 0 <= j < k ==> self.opened().contains(#[trigger] ns@[j])
                        || self.flagged().contains(ns@[j]),
                decreases ns.len() - k,
            {
                let q = ns[k];
                assert(ns@.contains(q));
                if !self.is_open(q) {
                    let ghost cur = *self;
                    proof {
                        lemma_fewer_closed(before.spec_width(), before.spec_height(), before.opened(), self.opened(), p);
                        before.lemma_no_mine_around(p, q);
                        assert(before.around(p).contains(q));
                        assert(is_adjacent(before.spec_width(), before.spec_height(), p, q));
                        assert(self.on_board(q));
                    }
                    let (_, Ghost(ilog), Ghost(iparent)) = self.open_closed(q);
                    proof {
                        cur.lemma_flood_chain(self, before.opened().insert(p));
                        if !cur.flagged().contains(q) {
                            cur.lemma_log_chain(self, before.opened(), set![p], log, parent, q, ilog, iparent, 0);
                            parent = parent + iparent.map_values(|x: int| if x < 0 { 0 } else { x + log.len() });
                            log = log + ilog;
                        } else {
                            assert(self.flood_log(before.opened(), set![p], log, parent)) by {
                                reveal(Minesweeper::flood_log);
                            }
                        }
                    }
                }
                k += 1;
            }
            proof {
                assert forall|q: Position, s: Position|
                    #[trigger] self.opened().contains(q) && #[trigger] self.around(q).contains(s)
                    && !before.opened().contains(q) && self.mines_around(q) == 0 && !self.flagged().contains(s)
                    implies self.opened().contains(s) by {
                    if q == p {
                        assert(ns@.contains(s));
                        let j = choose|j: int| 0 <= j < ns.len() && ns@[j] == s;
                        assert(self.opened().contains(ns@[j]) || self.flagged().contains(ns@[j]));
                    }
                }
            }
        }
        (Some(OpenResult::NoMine(count)), Ghost(log), Ghost(parent))
    }

    /// Opens `position`. On a closed cell: nothing while the game is lost or the
    /// cell is flagged; `Mine` when it holds one, which loses the game; otherwise
    /// `NoMine` with its count, flooding on while the count is zero. On an open
    /// cell with as many flags as mines around it, opens its unflagged closed
    /// neighbours and returns `None`. Off the board nothing happens.
    pub fn open(&mut self, position: Position) -> (r: Option<OpenResult>)
        requires
            old(self).wf(),
        ensures
            Self::open_post(*old(self), *final(self), position, r),
    {
        if !(position.0 < self.width && position.1 < self.height) {
            return None;
        }
        if self.is_open(position) {
            let ghost before = *self;
            let mine_count = self.neighboring_mines(position);
            let flag_count = self.count_around(&self.flagged_fields, position);
            if mine_count as usize == flag_count {
                let ns = self.iter_neighbors(position);
                let ghost targets = before.chord_targets(position);
                let ghost mut log: Seq<Position> = Seq::empty();
                let ghost mut parent: Seq<int> = Seq::empty();
                assert(self.flood_log(before.opened(), targets, log, parent)) by {
                    reveal(Minesweeper::flood_log);
                }
                let mut k: usize = 0;
                while k < ns.len()
                    invariant
                        self.wf(),
                        self.same_field(&before),
                        self.flagged() == before.flagged(),
                        before.wf(),
                        before.opened().contains(position),
                        before.opened().subset_of(self.opened()),
                        before.mines_around(position) == before.flags_around(position),
                        k <= ns.len(),
                        forall|q: Position| ns@.contains(q) <==> #[trigger] before.around(position).contains(q),
                        self.spec_lost() <==> before.spec_lost() || exists|j: int| 0 <= j < k
                            && #[trigger] before.chord_target(position, ns@[j]) && before.mine_set().contains(ns@[j]),
                        before.spec_lost() ==> self.unchanged_from(&before),
                        !self.spec_lost() ==> forall|j: int| 0 <= j < k
                            && #[trigger] before.chord_target(position, ns@[j]) ==> self.opened().contains(ns@[j]),
                        !self.spec_lost() ==> self.flood_from(before.opened()),
                        targets == before.chord_targets(position),
                        !self.spec_lost() ==> self.flood_log(before.opened(), targets, log, parent),
                    decreases ns.len() - k,
                {
                    let q = ns[k];
                    assert(ns@.contains(q));
                    let ghost cur = *self;
                    if !self.is_flagged(q) && !self.is_open(q) {
                        assert(before.around(position).contains(q));
                        let (_, Ghost(ilog), Ghost(iparent)) = self.open_closed(q);
                        proof {
                            if !cur.spec_lost() && !cur.mine_set().contains(q) {
                                cur.lemma_flood_chain(self, before.opened());
                                assert(targets.contains(q));
                                cur.lemma_log_chain(self, before.opened(), targets, log, parent, q, ilog, iparent, -1);
                                parent = parent + iparent.map_values(|x: int| if x < 0 { -1 } else { x + log.len() });
                                log = log + ilog;
                            }
                        }
                    }
                    proof {
                        if !cur.spec_lost() && cur.opened().contains(q) && !before.opened().contains(q) {
                            assert(!before.mine_set().contains(q));
                        }
                        if self.spec_lost() && !before.spec_lost() && !cur.spec_lost() {
                            assert(before.chord_target(position, ns@[k as int]) && before.mine_set().contains(ns@[k as int]));
                        }
                    }
                    k += 1;
                }
                proof {
                    if self.spec_lost() && !before.spec_lost() {
                        let j = choose|j: int| 0 <= j < k
                            && #[trigger] before.chord_target(position, ns@[j]) && before.mine_set().contains(ns@[j]);
                        assert(before.chord_target(position, ns@[j]));
                    }
                    assert forall|q: Position| #[trigger] before.chord_target(position, q) && !self.spec_lost()
                        implies self.opened().contains(q) by {
                        assert(ns@.contains(q));
                        let j = choose|j: int| 0 <= j < ns.len() && ns@[j] == q;
                        assert(before.chord_target(position, ns@[j]));
                    }
                    assert forall|q: Position| #[trigger] before.chord_target(position, q)
                        && before.mine_set().contains(q) && !before.spec_lost() implies self.spec_lost() by {
                        assert(ns@.contains(q));
                        let j = choose|j: int| 0 <= j < ns.len() && ns@[j] == q;
                        assert(before.chord_target(position, ns@[j]));
                    }
                }
            }
            return None;
        }
        self.open_closed(position).0
    }

    /// The game is won: it is not lost and every cell without a mine is open.
    pub open spec fn won(&self) -> bool {
        &&& !self.spec_lost()
        &&& forall|q: Position| #[trigger] self.on_board(q) && !self.mine_set().contains(q) ==> self.opened().contains(q)
    }

    /// Whether the game is won.
    pub fn is_won(&self) -> (r: bool)
        requires
            self.wf(),
        ensures
            r == self.won(),
    {
        if self.lost {
            return false;
        }
        let mut y: usize = 0;
        while y < self.height
            invariant
                self.wf(),
                !self.spec_lost(),
                y <= self.height,
                forall|q: Position| #[trigger] self.on_board(q) && q.1 < y && !self.mine_set().contains(q)
                    ==> self.opened().contains(q),
            decreases self.height - y,
        {
            let mut x: usize = 0;
            while x < self.width
                invariant
                    self.wf(),
                    y < self.height,
                    x <= self.width,
                    forall|q: Position| #[trigger] self.on_board(q) && (q.1 < y || (q.1 == y && q.0 < x))
                        && !self.mine_set().contains(q) ==> self.opened().contains(q),
                decreases self.width - x,
            {
                if !self.is_mine((x, y)) && !self.is_open((x, y)) {
                    assert(self.on_board((x, y)));
                    return false;
                }
                x += 1;
            }
            y += 1;
        }
        true
    }
}

} // verus!
