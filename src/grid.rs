use vstd::prelude::*;

verus! {

/// The number of `false` entries of a row.
pub open spec fn row_covered(r: Seq<bool>) -> nat
    decreases r.len(),
{
    if r.len() == 0 {
        0
    } else {
        row_covered(r.drop_last()) + if r.last() { 0nat } else { 1nat }
    }
}

/// The number of `false` entries of a grid of rows.
pub open spec fn grid_covered(g: Seq<Seq<bool>>) -> nat
    decreases g.len(),
{
    if g.len() == 0 {
        0
    } else {
        grid_covered(g.drop_last()) + row_covered(g.last())
    }
}

/// Two grids with the same number of rows, row by row of the same length.
pub open spec fn same_shape(a: Seq<Seq<bool>>, b: Seq<Seq<bool>>) -> bool {
    &&& a.len() == b.len()
    &&& forall|i: int| 0 <= i < a.len() ==> #[trigger] a[i].len() == b[i].len()
}

/// Setting entries to `true` never adds a `false` one.
pub proof fn lemma_row_covered_mono(a: Seq<bool>, b: Seq<bool>)
    requires
        a.len() == b.len(),
        forall|j: int| 0 <= j < a.len() && #[trigger] a[j] ==> b[j],
    ensures
        row_covered(b) <= row_covered(a),
    decreases a.len(),
{
    if a.len() > 0 {
        lemma_row_covered_mono(a.drop_last(), b.drop_last());
    }
}

pub proof fn lemma_grid_covered_mono(a: Seq<Seq<bool>>, b: Seq<Seq<bool>>)
    requires
        same_shape(a, b),
        forall|i: int, j: int| 0 <= i < a.len() && 0 <= j < a[i].len() && #[trigger] a[i][j] ==> b[i][j],
    ensures
        grid_covered(b) <= grid_covered(a),
    decreases a.len(),
{
    if a.len() > 0 {
        let n = a.len() - 1;
        assert forall|j: int| 0 <= j < a[n].len() && #[trigger] a[n][j] implies b[n][j] by {}
        lemma_row_covered_mono(a[n], b[n]);
        lemma_grid_covered_mono(a.drop_last(), b.drop_last());
    }
}

/// Setting one entry to `true` takes one `false` away, if it was `false`.
pub proof fn lemma_row_covered_set(r: Seq<bool>, x: int)
    requires
        0 <= x < r.len(),
    ensures
        row_covered(r.update(x, true)) + (if r[x] { 0nat } else { 1nat }) == row_covered(r),
    decreases r.len(),
{
    let s = r.update(x, true);
    if x < r.len() - 1 {
        assert(s.drop_last() =~= r.drop_last().update(x, true));
        lemma_row_covered_set(r.drop_last(), x);
    } else {
        assert(s.drop_last() =~= r.drop_last());
    }
}

pub proof fn lemma_grid_covered_set(g: Seq<Seq<bool>>, x: int, y: int)
    requires
        0 <= y < g.len(),
        0 <= x < g[y].len(),
    ensures
        grid_covered(g.update(y, g[y].update(x, true))) + (if g[y][x] { 0nat } else { 1nat }) == grid_covered(g),
    decreases g.len(),
{
    let h = g.update(y, g[y].update(x, true));
    if y < g.len() - 1 {
        assert(h.drop_last() =~= g.drop_last().update(y, g[y].update(x, true)));
        lemma_grid_covered_set(g.drop_last(), x, y);
    } else {
        assert(h.drop_last() =~= g.drop_last());
        lemma_row_covered_set(g[y], x);
    }
}

} // verus!
