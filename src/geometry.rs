//! Positions on a rectangular grid, their flat indices and their neighbourhoods.
use vstd::prelude::*;

verus! {

/// A cell of the grid as `(column, row)`, both counted from zero.
pub type Position = (usize, usize);

/// `p` lies on a grid of `width` columns and `height` rows.
pub open spec fn in_bounds(width: nat, height: nat, p: Position) -> bool {
    p.0 < width && p.1 < height
}

/// Every position of a `width` by `height` grid.
pub open spec fn cells(width: nat, height: nat) -> Set<Position> {
    Set::new(|p: Position| in_bounds(width, height, p))
}

/// `q` touches `p` along a side or a corner, lies on the grid, and is not `p` itself.
pub open spec fn is_adjacent(width: nat, height: nat, p: Position, q: Position) -> bool {
    &&& in_bounds(width, height, q)
    &&& q != p
    &&& p.0 <= q.0 + 1 && q.0 <= p.0 + 1
    &&& p.1 <= q.1 + 1 && q.1 <= p.1 + 1
}

/// The positions adjacent to `p` on the grid.
pub open spec fn adjacent(width: nat, height: nat, p: Position) -> Set<Position> {
    Set::new(|q: Position| is_adjacent(width, height, p, q))
}

/// How many of the coordinates `c - 1`, `c`, `c + 1` lie in `0..size`.
pub open spec fn span(c: nat, size: nat) -> nat {
    (if c > 0 { 1nat } else { 0nat }) + 1 + (if c + 1 < size { 1nat } else { 0nat })
}

/// Where `p` is kept in a row-major buffer of a grid `width` columns wide.
pub open spec fn flat_index(width: nat, p: Position) -> int {
    p.1 * width + p.0
}

/// The cells of one column, `x`, above row `height`.
spec fn column(x: usize, height: nat) -> Set<Position> {
    Set::new(|p: Position| p.0 == x && p.1 < height)
}

proof fn lemma_column_finite(x: usize, height: nat)
    ensures
        column(x, height).finite(),
    decreases height,
{
    if height == 0 {
        assert(column(x, height) =~= Set::empty());
    } else {
        lemma_column_finite(x, (height - 1) as nat);
        if height - 1 <= usize::MAX {
            assert(column(x, height) =~= column(x, (height - 1) as nat).insert((x, (height - 1) as usize)));
        } else {
            assert(column(x, height) =~= column(x, (height - 1) as nat));
        }
    }
}

/// A grid has finitely many cells.
pub proof fn lemma_cells_finite(width: nat, height: nat)
    ensures
        cells(width, height).finite(),
    decreases width,
{
    if width == 0 {
        assert(cells(width, height) =~= Set::empty());
    } else {
        lemma_cells_finite((width - 1) as nat, height);
        if width - 1 <= usize::MAX {
            let x = (width - 1) as usize;
            lemma_column_finite(x, height);
            assert(cells(width, height) =~= cells((width - 1) as nat, height).union(column(x, height)));
        } else {
            assert(cells(width, height) =~= cells((width - 1) as nat, height));
        }
    }
}

/// Distinct positions of a grid have distinct flat indices, all below `width * height`.
pub proof fn lemma_flat_index(width: nat, height: nat, p: Position, q: Position)
    requires
        in_bounds(width, height, p),
        in_bounds(width, height, q),
    ensures
        0 <= flat_index(width, p) < width * height,
        flat_index(width, p) == flat_index(width, q) ==> p == q,
{
    let (px, py, qx, qy) = (p.0 as int, p.1 as int, q.0 as int, q.1 as int);
    let w = width as int;
    let h = height as int;
    assert(0 <= py * w + px < w * h) by (nonlinear_arith)
        requires 0 <= px < w, 0 <= py < h;
    assert(py * w + px == qy * w + qx ==> py == qy && px == qx) by (nonlinear_arith)
        requires 0 <= px < w, 0 <= qx < w, 0 <= py, 0 <= qy;
}

/// The positions of the grid whose entry is set in the row-major buffer `g`.
pub open spec fn marked(width: nat, height: nat, g: Seq<bool>) -> Set<Position> {
    Set::new(|q: Position| in_bounds(width, height, q) && g[flat_index(width, q)])
}

/// Setting or clearing the entry of `p` adds `p` to, or takes it from, the marked positions;
/// they stay a finite set.
pub proof fn lemma_marked_update(width: nat, height: nat, g: Seq<bool>, p: Position, b: bool)
    requires
        g.len() == width * height,
        in_bounds(width, height, p),
    ensures
        marked(width, height, g).finite(),
        b ==> marked(width, height, g.update(flat_index(width, p), b))
            == marked(width, height, g).insert(p),
        !b ==> marked(width, height, g.update(flat_index(width, p), b))
            == marked(width, height, g).remove(p),
{
    lemma_cells_finite(width, height);
    vstd::set_lib::lemma_len_subset(marked(width, height, g), cells(width, height));
    lemma_flat_index(width, height, p, p);
    let g2 = g.update(flat_index(width, p), b);
    assert forall|q: Position| in_bounds(width, height, q) && q != p implies g2[flat_index(width, q)]
        == g[flat_index(width, q)] by {
        lemma_flat_index(width, height, q, p);
    }
    if b {
        assert(marked(width, height, g2) =~= marked(width, height, g).insert(p));
    } else {
        assert(marked(width, height, g2) =~= marked(width, height, g).remove(p));
    }
}

/// Opening one more cell leaves fewer cells of the grid closed.
pub proof fn lemma_fewer_closed(width: nat, height: nat, before: Set<Position>, after: Set<Position>, p: Position)
    requires
        in_bounds(width, height, p),
        !before.contains(p),
        before.insert(p).subset_of(after),
    ensures
        cells(width, height).difference(after).len() < cells(width, height).difference(before).len(),
{
    lemma_cells_finite(width, height);
    let closed = cells(width, height).difference(before);
    vstd::set_lib::lemma_len_subset(closed, cells(width, height));
    vstd::set_lib::lemma_len_subset(cells(width, height).difference(after), closed.remove(p));
}

proof fn lemma_column_len(x: usize, height: nat)
    requires
        height <= usize::MAX,
    ensures
        column(x, height).finite(),
        column(x, height).len() == height,
    decreases height,
{
    if height == 0 {
        assert(column(x, height) =~= Set::empty());
    } else {
        lemma_column_len(x, (height - 1) as nat);
        assert(column(x, height) =~= column(x, (height - 1) as nat).insert((x, (height - 1) as usize)));
    }
}

/// A grid of `width` by `height` cells has `width * height` of them.
pub proof fn lemma_cells_len(width: nat, height: nat)
    requires
        width <= usize::MAX,
        height <= usize::MAX,
    ensures
        cells(width, height).finite(),
        cells(width, height).len() == width * height,
    decreases width,
{
    if width == 0 {
        assert(cells(width, height) =~= Set::empty());
    } else {
        let x = (width - 1) as usize;
        lemma_cells_len((width - 1) as nat, height);
        lemma_column_len(x, height);
        assert(cells(width, height) =~= cells((width - 1) as nat, height).union(column(x, height)));
        assert(cells((width - 1) as nat, height).disjoint(column(x, height)));
        vstd::set_lib::lemma_set_disjoint_lens(cells((width - 1) as nat, height), column(x, height));
        assert((width - 1) * height + height == width * height) by (nonlinear_arith);
    }
}

} // verus!
