//! Confusion matrix over class labels: rows are actual classes,
//! columns are predicted classes, and each cell counts the samples
//! with that (actual, predicted) pair.

use vstd::prelude::*;

verus! {

/// Flat index of the cell for an (actual, predicted) pair among
/// `n` classes.
pub open spec fn cell(actual: int, predicted: int, n: int) -> int {
    actual * n + predicted
}

/// Number of samples whose cell is `k`.
pub open spec fn count_cell(predictions: Seq<usize>, actuals: Seq<usize>, n: int, k: int) -> nat
    decreases predictions.len(),
{
    if predictions.len() == 0 || actuals.len() == 0 {
        0
    } else {
        let rest = count_cell(predictions.drop_last(), actuals.drop_last(), n, k);
        if cell(actuals.last() as int, predictions.last() as int, n) == k {
            rest + 1
        } else {
            rest
        }
    }
}

/// Number of samples that are of class `a` and were predicted as `p`.
pub open spec fn count_pair(predictions: Seq<usize>, actuals: Seq<usize>, a: int, p: int) -> nat
    decreases predictions.len(),
{
    if predictions.len() == 0 || actuals.len() == 0 {
        0
    } else {
        let rest = count_pair(predictions.drop_last(), actuals.drop_last(), a, p);
        if actuals.last() == a && predictions.last() == p {
            rest + 1
        } else {
            rest
        }
    }
}

/// Number of samples of class `a`.
pub open spec fn count_actual(actuals: Seq<usize>, a: int) -> nat
    decreases actuals.len(),
{
    if actuals.len() == 0 {
        0
    } else {
        count_actual(actuals.drop_last(), a) + if actuals.last() == a {
            1nat
        } else {
            0nat
        }
    }
}

/// Number of samples predicted as their actual class.
pub open spec fn count_correct(predictions: Seq<usize>, actuals: Seq<usize>) -> nat
    decreases predictions.len(),
{
    if predictions.len() == 0 || actuals.len() == 0 {
        0
    } else {
        count_correct(predictions.drop_last(), actuals.drop_last()) + if actuals.last()
            == predictions.last() {
            1nat
        } else {
            0nat
        }
    }
}

/// Sum of the entries of `s` whose index is selected by `sel`.
pub open spec fn sum_where(s: Seq<usize>, sel: spec_fn(int) -> bool) -> nat
    decreases s.len(),
{
    if s.len() == 0 {
        0
    } else {
        sum_where(s.drop_last(), sel) + if sel(s.len() - 1) {
            s.last() as nat
        } else {
            0nat
        }
    }
}

/// Sum of all entries of `s`.
pub open spec fn total(s: Seq<usize>) -> nat {
    sum_where(s, |k: int| true)
}

/// Sum of the first `j` cells of row `c`.
pub open spec fn row_sum(s: Seq<usize>, n: int, c: int, j: int) -> nat
    decreases j,
{
    if j <= 0 {
        0
    } else {
        row_sum(s, n, c, j - 1) + s[cell(c, j - 1, n)] as nat
    }
}

/// Sum of the first `j` diagonal cells.
pub open spec fn trace(s: Seq<usize>, n: int, j: int) -> nat
    decreases j,
{
    if j <= 0 {
        0
    } else {
        trace(s, n, j - 1) + s[cell(j - 1, j - 1, n)] as nat
    }
}

/// Every sample's cell lies inside the `n * n` table.
pub open spec fn cells_in_table(predictions: Seq<usize>, actuals: Seq<usize>, n: int) -> bool {
    forall|i: int|
        0 <= i < predictions.len() ==> cell(actuals[i] as int, predictions[i] as int, n) < n * n
}

/// Every label names one of the `n` classes.
pub open spec fn labels_in_range(predictions: Seq<usize>, actuals: Seq<usize>, n: int) -> bool {
    &&& forall|i: int| 0 <= i < predictions.len() ==> predictions[i] < n
    &&& forall|i: int| 0 <= i < actuals.len() ==> actuals[i] < n
}

// ---------------------------------------------------------------------
// Facts about selected sums
// ---------------------------------------------------------------------

proof fn lemma_sum_where_congruent(s: Seq<usize>, p: spec_fn(int) -> bool, q: spec_fn(int) -> bool)
    requires
        forall|x: int| 0 <= x < s.len() ==> #[trigger] p(x) == q(x),
    ensures
        sum_where(s, p) == sum_where(s, q),
    decreases s.len(),
{
    if s.len() > 0 {
        lemma_sum_where_congruent(s.drop_last(), p, q);
    }
}

proof fn lemma_sum_where_le_total(s: Seq<usize>, sel: spec_fn(int) -> bool)
    ensures
        sum_where(s, sel) <= total(s),
    decreases s.len(),
{
    if s.len() > 0 {
        lemma_sum_where_le_total(s.drop_last(), sel);
    }
}

proof fn lemma_sum_where_add(
    s: Seq<usize>,
    p: spec_fn(int) -> bool,
    q: spec_fn(int) -> bool,
    k: int,
)
    requires
        0 <= k < s.len(),
        !p(k),
        forall|x: int| #[trigger] q(x) == (p(x) || x == k),
    ensures
        sum_where(s, q) == sum_where(s, p) + s[k],
    decreases s.len(),
{
    if k == s.len() - 1 {
        lemma_sum_where_congruent(s.drop_last(), p, q);
    } else {
        lemma_sum_where_add(s.drop_last(), p, q, k);
    }
}

proof fn lemma_sum_where_update(s: Seq<usize>, k: int, v: usize, sel: spec_fn(int) -> bool)
    requires
        0 <= k < s.len(),
    ensures
        sum_where(s.update(k, v), sel) + (if sel(k) {
            s[k] as nat
        } else {
            0nat
        }) == sum_where(s, sel) + (if sel(k) {
            v as nat
        } else {
            0nat
        }),
    decreases s.len(),
{
    let t = s.update(k, v);
    if k == s.len() - 1 {
        assert(t.drop_last() =~= s.drop_last());
    } else {
        assert(t.drop_last() =~= s.drop_last().update(k, v));
        lemma_sum_where_update(s.drop_last(), k, v, sel);
    }
}

proof fn lemma_entry_le_total(s: Seq<usize>, k: int)
    requires
        0 <= k < s.len(),
    ensures
        s[k] <= total(s),
{
    let none = |x: int| false;
    let only = |x: int| x == k;
    lemma_sum_where_add(s, none, only, k);
    lemma_sum_where_congruent(s, none, |x: int| false);
    lemma_sum_where_none(s);
    lemma_sum_where_le_total(s, only);
}

proof fn lemma_sum_where_none(s: Seq<usize>)
    ensures
        sum_where(s, |x: int| false) == 0,
    decreases s.len(),
{
    if s.len() > 0 {
        lemma_sum_where_none(s.drop_last());
    }
}

pub(crate) proof fn lemma_row_cell_bound(n: int, c: int, j: int)
    requires
        0 <= c < n,
        0 <= j <= n,
    ensures
        0 <= c * n,
        c * n + j <= n * n,
{
    assert(0 <= c * n) by (nonlinear_arith)
        requires
            0 <= c < n,
    ;
    assert(c * n + j <= n * n) by (nonlinear_arith)
        requires
            0 <= c < n,
            0 <= j <= n,
    ;
}

/// The first `j` cells of row `c`, as a selection of flat indices.
pub open spec fn row_selection(n: int, c: int, j: int) -> spec_fn(int) -> bool {
    |k: int| c * n <= k < c * n + j
}

proof fn lemma_row_sum_selected(s: Seq<usize>, n: int, c: int, j: int)
    requires
        0 <= c < n,
        0 <= j <= n,
        s.len() == n * n,
    ensures
        row_sum(s, n, c, j) == sum_where(s, row_selection(n, c, j)),
    decreases j,
{
    lemma_row_cell_bound(n, c, j);
    if j == 0 {
        lemma_sum_where_congruent(s, row_selection(n, c, 0), |x: int| false);
        lemma_sum_where_none(s);
    } else {
        lemma_row_sum_selected(s, n, c, j - 1);
        lemma_sum_where_add(s, row_selection(n, c, j - 1), row_selection(n, c, j), c * n + j - 1);
    }
}

/// Flat index of the `i`-th diagonal cell.
pub open spec fn diag_index(i: int, n: int) -> int {
    i * n + i
}

/// The first `j` diagonal cells, as a selection of flat indices.
pub open spec fn diag_selection(n: int, j: int) -> spec_fn(int) -> bool {
    |k: int| exists|i: int| 0 <= i < j && k == #[trigger] diag_index(i, n)
}

proof fn lemma_diag_strict(n: int, i: int, j: int)
    requires
        0 <= i < j,
        0 <= n,
    ensures
        diag_index(i, n) < diag_index(j, n),
{
    assert(i * n <= j * n) by (nonlinear_arith)
        requires
            0 <= i < j,
            0 <= n,
    ;
}

proof fn lemma_trace_selected(s: Seq<usize>, n: int, j: int)
    requires
        0 <= j <= n,
        s.len() == n * n,
    ensures
        trace(s, n, j) == sum_where(s, diag_selection(n, j)),
    decreases j,
{
    if j == 0 {
        lemma_sum_where_congruent(s, diag_selection(n, 0), |x: int| false);
        lemma_sum_where_none(s);
    } else {
        lemma_trace_selected(s, n, j - 1);
        let p = diag_selection(n, j - 1);
        let q = diag_selection(n, j);
        let k = diag_index(j - 1, n);
        lemma_row_cell_bound(n, j - 1, j);
        assert(!p(k)) by {
            if p(k) {
                let i = choose|i: int| 0 <= i < j - 1 && k == #[trigger] diag_index(i, n);
                lemma_diag_strict(n, i, j - 1);
            }
        }
        assert forall|x: int| #[trigger] q(x) == (p(x) || x == k) by {
            if q(x) {
                let i = choose|i: int| 0 <= i < j && x == #[trigger] diag_index(i, n);
                if i < j - 1 {
                    assert(p(x));
                }
            }
            if p(x) {
                let i = choose|i: int| 0 <= i < j - 1 && x == #[trigger] diag_index(i, n);
                assert(q(x));
            }
            if x == k {
                assert(q(x));
            }
        }
        lemma_sum_where_add(s, p, q, k);
    }
}

// ---------------------------------------------------------------------
// Facts about counting samples
// ---------------------------------------------------------------------

/// Number of samples of class `c` whose prediction is below `j`.
pub open spec fn count_actual_below(predictions: Seq<usize>, actuals: Seq<usize>, c: int, j: int) -> nat
    decreases predictions.len(),
{
    if predictions.len() == 0 || actuals.len() == 0 {
        0
    } else {
        count_actual_below(predictions.drop_last(), actuals.drop_last(), c, j) + if actuals.last()
            == c && predictions.last() < j {
            1nat
        } else {
            0nat
        }
    }
}

/// Number of correctly predicted samples whose class is below `j`.
pub open spec fn count_correct_below(predictions: Seq<usize>, actuals: Seq<usize>, j: int) -> nat
    decreases predictions.len(),
{
    if predictions.len() == 0 || actuals.len() == 0 {
        0
    } else {
        count_correct_below(predictions.drop_last(), actuals.drop_last(), j) + if actuals.last()
            == predictions.last() && actuals.last() < j {
            1nat
        } else {
            0nat
        }
    }
}

proof fn lemma_cell_injective(n: int, a: int, p: int, a2: int, p2: int)
    requires
        0 <= a < n,
        0 <= p < n,
        0 <= a2 < n,
        0 <= p2 < n,
        cell(a, p, n) == cell(a2, p2, n),
    ensures
        a == a2,
        p == p2,
{
    if a < a2 {
        assert(a * n + p < a2 * n + p2) by (nonlinear_arith)
            requires
                0 <= a < a2,
                0 <= p < n,
                0 <= p2,
        ;
    } else if a2 < a {
        assert(a2 * n + p2 < a * n + p) by (nonlinear_arith)
            requires
                0 <= a2 < a,
                0 <= p2 < n,
                0 <= p,
        ;
    }
}

proof fn lemma_count_cell_is_pair(predictions: Seq<usize>, actuals: Seq<usize>, n: int, a: int, p: int)
    requires
        predictions.len() == actuals.len(),
        labels_in_range(predictions, actuals, n),
        0 <= a < n,
        0 <= p < n,
    ensures
        count_cell(predictions, actuals, n, cell(a, p, n)) == count_pair(predictions, actuals, a, p),
    decreases predictions.len(),
{
    if predictions.len() > 0 {
        let pd = predictions.drop_last();
        let ad = actuals.drop_last();
        lemma_count_cell_is_pair(pd, ad, n, a, p);
        let la = actuals.last() as int;
        let lp = predictions.last() as int;
        assert(0 <= la < n && 0 <= lp < n) by {
            assert(actuals[actuals.len() - 1] < n);
            assert(predictions[predictions.len() - 1] < n);
        }
        if cell(la, lp, n) == cell(a, p, n) {
            lemma_cell_injective(n, la, lp, a, p);
        }
    }
}

proof fn lemma_actual_below_step(predictions: Seq<usize>, actuals: Seq<usize>, c: int, j: int)
    requires
        predictions.len() == actuals.len(),
        0 <= j,
    ensures
        count_actual_below(predictions, actuals, c, j + 1) == count_actual_below(
            predictions,
            actuals,
            c,
            j,
        ) + count_pair(predictions, actuals, c, j),
    decreases predictions.len(),
{
    if predictions.len() > 0 {
        lemma_actual_below_step(predictions.drop_last(), actuals.drop_last(), c, j);
    }
}

proof fn lemma_actual_below_all(predictions: Seq<usize>, actuals: Seq<usize>, n: int, c: int)
    requires
        predictions.len() == actuals.len(),
        labels_in_range(predictions, actuals, n),
    ensures
        count_actual_below(predictions, actuals, c, n) == count_actual(actuals, c),
    decreases predictions.len(),
{
    if predictions.len() > 0 {
        lemma_actual_below_all(predictions.drop_last(), actuals.drop_last(), n, c);
        assert(predictions[predictions.len() - 1] < n);
    }
}

proof fn lemma_correct_below_step(predictions: Seq<usize>, actuals: Seq<usize>, j: int)
    requires
        predictions.len() == actuals.len(),
        0 <= j,
    ensures
        count_correct_below(predictions, actuals, j + 1) == count_correct_below(
            predictions,
            actuals,
            j,
        ) + count_pair(predictions, actuals, j, j),
    decreases predictions.len(),
{
    if predictions.len() > 0 {
        lemma_correct_below_step(predictions.drop_last(), actuals.drop_last(), j);
    }
}

proof fn lemma_correct_below_all(predictions: Seq<usize>, actuals: Seq<usize>, n: int)
    requires
        predictions.len() == actuals.len(),
        labels_in_range(predictions, actuals, n),
    ensures
        count_correct_below(predictions, actuals, n) == count_correct(predictions, actuals),
    decreases predictions.len(),
{
    if predictions.len() > 0 {
        lemma_correct_below_all(predictions.drop_last(), actuals.drop_last(), n);
        assert(actuals[actuals.len() - 1] < n);
    }
}

/// Row sums of a table of cell counts count the samples of that class
/// whose prediction is below the column reached.
proof fn lemma_row_sum_counts(s: Seq<usize>, predictions: Seq<usize>, actuals: Seq<usize>, n: int, c: int, j: int)
    requires
        predictions.len() == actuals.len(),
        labels_in_range(predictions, actuals, n),
        s.len() == n * n,
        forall|k: int| 0 <= k < n * n ==> #[trigger] s[k] == count_cell(predictions, actuals, n, k),
        0 <= c < n,
        0 <= j <= n,
    ensures
        row_sum(s, n, c, j) == count_actual_below(predictions, actuals, c, j),
    decreases j,
{
    if j == 0 {
        lemma_actual_below_zero(predictions, actuals, c);
    } else {
        lemma_row_sum_counts(s, predictions, actuals, n, c, j - 1);
        lemma_row_cell_bound(n, c, j);
        lemma_count_cell_is_pair(predictions, actuals, n, c, j - 1);
        lemma_actual_below_step(predictions, actuals, c, j - 1);
    }
}

proof fn lemma_actual_below_zero(predictions: Seq<usize>, actuals: Seq<usize>, c: int)
    requires
        predictions.len() == actuals.len(),
    ensures
        count_actual_below(predictions, actuals, c, 0) == 0,
    decreases predictions.len(),
{
    if predictions.len() > 0 {
        lemma_actual_below_zero(predictions.drop_last(), actuals.drop_last(), c);
    }
}

proof fn lemma_correct_below_zero(predictions: Seq<usize>, actuals: Seq<usize>)
    requires
        predictions.len() == actuals.len(),
    ensures
        count_correct_below(predictions, actuals, 0) == 0,
    decreases predictions.len(),
{
    if predictions.len() > 0 {
        lemma_correct_below_zero(predictions.drop_last(), actuals.drop_last());
    }
}

/// The first `j` diagonal cells count the correct predictions of
/// classes below `j`.
proof fn lemma_trace_counts(s: Seq<usize>, predictions: Seq<usize>, actuals: Seq<usize>, n: int, j: int)
    requires
        predictions.len() == actuals.len(),
        labels_in_range(predictions, actuals, n),
        s.len() == n * n,
        forall|k: int| 0 <= k < n * n ==> #[trigger] s[k] == count_cell(predictions, actuals, n, k),
        0 <= j <= n,
    ensures
        trace(s, n, j) == count_correct_below(predictions, actuals, j),
    decreases j,
{
    if j == 0 {
        lemma_correct_below_zero(predictions, actuals);
    } else {
        lemma_trace_counts(s, predictions, actuals, n, j - 1);
        lemma_row_cell_bound(n, j - 1, j);
        lemma_count_cell_is_pair(predictions, actuals, n, j - 1, j - 1);
        lemma_correct_below_step(predictions, actuals, j - 1);
    }
}

// ---------------------------------------------------------------------
// Ranking classes by accuracy
// ---------------------------------------------------------------------

/// Numerator of the accuracy of class `c` as a fraction: its diagonal
/// count, or 0 when the class has no samples.
pub open spec fn accuracy_num(s: Seq<usize>, n: int, c: int) -> int {
    if row_sum(s, n, c, n) == 0 {
        0
    } else {
        s[cell(c, c, n)] as int
    }
}

/// Denominator of the accuracy of class `c` as a fraction: its row
/// total, or 1 when the class has no samples.
pub open spec fn accuracy_den(s: Seq<usize>, n: int, c: int) -> int {
    if row_sum(s, n, c, n) == 0 {
        1
    } else {
        row_sum(s, n, c, n) as int
    }
}

/// Class `x` has a strictly lower accuracy than class `y`.
pub open spec fn less_accurate(s: Seq<usize>, n: int, x: int, y: int) -> bool {
    accuracy_num(s, n, x) * accuracy_den(s, n, y) < accuracy_num(s, n, y) * accuracy_den(s, n, x)
}

/// Class `x` is listed before class `y` when ranking from worst to
/// best: lower accuracy first, ties in class order.
pub open spec fn ranks_before(s: Seq<usize>, n: int, x: int, y: int) -> bool {
    less_accurate(s, n, x, y) || (!less_accurate(s, n, y, x) && x < y)
}

proof fn lemma_less_then_not_less_trans(nx: int, dx: int, ny: int, dy: int, nz: int, dz: int)
    requires
        dx > 0,
        dy > 0,
        dz > 0,
        nx * dy < ny * dx,
        ny * dz <= nz * dy,
    ensures
        nx * dz < nz * dx,
{
    assert(nx * dy * dz < ny * dx * dz) by (nonlinear_arith)
        requires
            nx * dy < ny * dx,
            dz > 0,
    ;
    assert(ny * dz * dx <= nz * dy * dx) by (nonlinear_arith)
        requires
            ny * dz <= nz * dy,
            dx > 0,
    ;
    assert(nx * dz * dy < nz * dx * dy) by (nonlinear_arith)
        requires
            nx * dy * dz < ny * dx * dz,
            ny * dz * dx <= nz * dy * dx,
    ;
    assert(nx * dz < nz * dx) by (nonlinear_arith)
        requires
            nx * dz * dy < nz * dx * dy,
            dy > 0,
    ;
}

proof fn lemma_not_less_trans(nx: int, dx: int, ny: int, dy: int, nz: int, dz: int)
    requires
        dx > 0,
        dy > 0,
        dz > 0,
        nx * dy <= ny * dx,
        ny * dz <= nz * dy,
    ensures
        nx * dz <= nz * dx,
{
    assert(nx * dy * dz <= ny * dx * dz) by (nonlinear_arith)
        requires
            nx * dy <= ny * dx,
            dz > 0,
    ;
    assert(ny * dz * dx <= nz * dy * dx) by (nonlinear_arith)
        requires
            ny * dz <= nz * dy,
            dx > 0,
    ;
    assert(nx * dz * dy <= nz * dx * dy) by (nonlinear_arith)
        requires
            nx * dy * dz <= ny * dx * dz,
            ny * dz * dx <= nz * dy * dx,
    ;
    assert(nx * dz <= nz * dx) by (nonlinear_arith)
        requires
            nx * dz * dy <= nz * dx * dy,
            dy > 0,
    ;
}

proof fn lemma_not_less_then_less_trans(nx: int, dx: int, ny: int, dy: int, nz: int, dz: int)
    requires
        dx > 0,
        dy > 0,
        dz > 0,
        nx * dy <= ny * dx,
        ny * dz < nz * dy,
    ensures
        nx * dz < nz * dx,
{
    assert(nx * dy * dz <= ny * dx * dz) by (nonlinear_arith)
        requires
            nx * dy <= ny * dx,
            dz > 0,
    ;
    assert(ny * dz * dx < nz * dy * dx) by (nonlinear_arith)
        requires
            ny * dz < nz * dy,
            dx > 0,
    ;
    assert(nx * dz * dy < nz * dx * dy) by (nonlinear_arith)
        requires
            nx * dy * dz <= ny * dx * dz,
            ny * dz * dx < nz * dy * dx,
    ;
    assert(nx * dz < nz * dx) by (nonlinear_arith)
        requires
            nx * dz * dy < nz * dx * dy,
            dy > 0,
    ;
}

/// Ranking is transitive.
pub proof fn lemma_ranks_before_transitive(s: Seq<usize>, n: int, x: int, y: int, z: int)
    requires
        ranks_before(s, n, x, y),
        ranks_before(s, n, y, z),
    ensures
        ranks_before(s, n, x, z),
{
    let (nx, dx) = (accuracy_num(s, n, x), accuracy_den(s, n, x));
    let (ny, dy) = (accuracy_num(s, n, y), accuracy_den(s, n, y));
    let (nz, dz) = (accuracy_num(s, n, z), accuracy_den(s, n, z));
    // x is no more accurate than y, and y no more than z
    assert(nx * dy <= ny * dx);
    assert(ny * dz <= nz * dy);
    lemma_not_less_trans(nx, dx, ny, dy, nz, dz);
    if less_accurate(s, n, x, y) {
        lemma_less_then_not_less_trans(nx, dx, ny, dy, nz, dz);
    } else if less_accurate(s, n, y, z) {
        lemma_not_less_then_less_trans(nx, dx, ny, dy, nz, dz);
    } else {
        lemma_not_less_trans(nz, dz, ny, dy, nx, dx);
    }
}

/// `order` lists classes from worst to best accuracy, ties in class
/// order.
pub open spec fn ranked(s: Seq<usize>, n: int, order: Seq<usize>) -> bool {
    forall|i: int, j: int|
        0 <= i < j < order.len() ==> #[trigger] ranks_before(s, n, order[i] as int, order[j] as int)
}

proof fn lemma_insert_ranked(s: Seq<usize>, n: int, order: Seq<usize>, pos: int, c: usize)
    requires
        0 <= pos <= order.len(),
        ranked(s, n, order),
        forall|q: int| 0 <= q < pos ==> #[trigger] ranks_before(s, n, order[q] as int, c as int),
        forall|q: int|
            pos <= q < order.len() ==> #[trigger] ranks_before(s, n, c as int, order[q] as int),
    ensures
        ranked(s, n, order.insert(pos, c)),
{
    let t = order.insert(pos, c);
    assert forall|i: int, j: int| 0 <= i < j < t.len() implies #[trigger] ranks_before(
        s,
        n,
        t[i] as int,
        t[j] as int,
    ) by {
        if j < pos {
            assert(t[i] == order[i] && t[j] == order[j]);
        } else if j == pos {
            assert(t[i] == order[i]);
        } else if i < pos {
            assert(t[i] == order[i] && t[j] == order[j - 1]);
        } else if i == pos {
            assert(t[j] == order[j - 1]);
        } else {
            assert(t[i] == order[i - 1] && t[j] == order[j - 1]);
        }
    }
}

proof fn lemma_product_fits(a: int, b: int)
    requires
        0 <= a <= 0xffff_ffff_ffff_ffff,
        0 <= b <= 0xffff_ffff_ffff_ffff,
    ensures
        a * b <= 0xffff_ffff_ffff_ffff_ffff_ffff_ffff_ffff,
{
    assert(a * b <= 0xffff_ffff_ffff_ffff * 0xffff_ffff_ffff_ffff) by (nonlinear_arith)
        requires
            0 <= a <= 0xffff_ffff_ffff_ffff,
            0 <= b <= 0xffff_ffff_ffff_ffff,
    ;
}

/// `nx / dx < ny / dy`, compared by cross-multiplication.
fn fraction_less(nx: usize, dx: usize, ny: usize, dy: usize) -> (r: bool)
    ensures
        r == (nx * dy < ny * dx),
{
    proof {
        lemma_product_fits(nx as int, dy as int);
        lemma_product_fits(ny as int, dx as int);
    }
    let left = (nx as u128) * (dy as u128);
    let right = (ny as u128) * (dx as u128);
    left < right
}

// ---------------------------------------------------------------------
// The matrix
// ---------------------------------------------------------------------

/// Counts of (actual, predicted) outcomes among `n_classes` classes,
/// stored row-major: the count for (a, p) is at `a * n_classes + p`.
pub struct ConfusionMatrix {
    n_classes: usize,
    counts: Vec<usize>,
    predictions: Ghost<Seq<usize>>,
    actuals: Ghost<Seq<usize>>,
}

impl View for ConfusionMatrix {
    type V = Seq<usize>;

    /// The counts in row-major order.
    closed spec fn view(&self) -> Seq<usize> {
        self.counts@
    }
}

impl ConfusionMatrix {
    #[verifier::type_invariant]
    closed spec fn well_formed(self) -> bool {
        &&& self.n_classes * self.n_classes <= usize::MAX
        &&& self.counts@.len() == self.n_classes * self.n_classes
        &&& total(self.counts@) <= usize::MAX
        &&& self.predictions@.len() == self.actuals@.len()
        &&& total(self.counts@) == self.predictions@.len()
        &&& forall|k: int|
            0 <= k < self.counts@.len() ==> #[trigger] self.counts@[k] == count_cell(
                self.predictions@,
                self.actuals@,
                self.n_classes as int,
                k,
            )
    }

    /// The predicted labels the matrix was built from.
    pub closed spec fn predictions(&self) -> Seq<usize> {
        self.predictions@
    }

    /// The actual labels the matrix was built from.
    pub closed spec fn actuals(&self) -> Seq<usize> {
        self.actuals@
    }

    /// Number of classes (the side of the table).
    pub closed spec fn classes(&self) -> nat {
        self.n_classes as nat
    }

    /// Builds the matrix from parallel slices of predicted and actual
    /// labels.
    pub fn build(predictions: &[usize], actuals: &[usize], n_classes: usize) -> (m: Self)
        requires
            predictions@.len() == actuals@.len(),
            n_classes * n_classes <= usize::MAX,
            cells_in_table(predictions@, actuals@, n_classes as int),
        ensures
            m.classes() == n_classes,
            m.predictions() == predictions@,
            m.actuals() == actuals@,
            m@.len() == n_classes * n_classes,
            total(m@) == predictions@.len(),
            labels_in_range(predictions@, actuals@, n_classes as int) ==> forall|a: int, p: int|
                0 <= a < n_classes && 0 <= p < n_classes ==> #[trigger] m@[cell(
                    a,
                    p,
                    n_classes as int,
                )] == count_pair(predictions@, actuals@, a, p),
            forall|k: int|
                0 <= k < n_classes * n_classes ==> #[trigger] m@[k] == count_cell(
                    predictions@,
                    actuals@,
                    n_classes as int,
                    k,
                ),
    {
        let size = n_classes * n_classes;
        let mut counts: Vec<usize> = Vec::new();
        let mut z: usize = 0;
        while z < size
            invariant
                z <= size,
                counts@.len() == z,
                forall|k: int| 0 <= k < z ==> #[trigger] counts@[k] == 0,
            decreases size - z,
        {
            counts.push(0);
            z = z + 1;
        }
        proof {
            assert(total(counts@) == 0) by {
                lemma_total_zeros(counts@);
            }
            assert(predictions@.take(0) =~= Seq::<usize>::empty());
            assert(actuals@.take(0) =~= Seq::<usize>::empty());
        }
        let len = predictions.len();
        let mut i: usize = 0;
        while i < len
            invariant
                i <= len,
                len == predictions@.len(),
                len == actuals@.len(),
                size == n_classes * n_classes,
                counts@.len() == size,
                total(counts@) == i,
                cells_in_table(predictions@, actuals@, n_classes as int),
                forall|k: int|
                    0 <= k < size ==> #[trigger] counts@[k] == count_cell(
                        predictions@.take(i as int),
                        actuals@.take(i as int),
                        n_classes as int,
                        k,
                    ),
            decreases len - i,
        {
            let ghost old_counts = counts@;
            let a = actuals[i];
            let p = predictions[i];
            proof {
                assert(cell(a as int, p as int, n_classes as int) < n_classes * n_classes);
            }
            let k = a * n_classes + p;
            proof {
                lemma_entry_le_total(old_counts, k as int);
                lemma_sum_where_update(old_counts, k as int, (old_counts[k as int] + 1) as usize, |x: int| true);
            }
            let c = counts[k];
            counts.set(k, c + 1);
            proof {
                let pt = predictions@.take(i + 1);
                let at = actuals@.take(i + 1);
                assert(pt.drop_last() =~= predictions@.take(i as int));
                assert(at.drop_last() =~= actuals@.take(i as int));
                assert forall|j: int| 0 <= j < size implies #[trigger] counts@[j] == count_cell(
                    pt,
                    at,
                    n_classes as int,
                    j,
                ) by {
                    assert(count_cell(pt, at, n_classes as int, j) == count_cell(
                        pt.drop_last(),
                        at.drop_last(),
                        n_classes as int,
                        j,
                    ) + if j == k {
                        1nat
                    } else {
                        0nat
                    });
                }
            }
            i = i + 1;
        }
        proof {
            assert(predictions@.take(len as int) =~= predictions@);
            assert(actuals@.take(len as int) =~= actuals@);
            if labels_in_range(predictions@, actuals@, n_classes as int) {
                assert forall|a: int, p: int|
                    0 <= a < n_classes && 0 <= p < n_classes implies #[trigger] counts@[cell(
                    a,
                    p,
                    n_classes as int,
                )] == count_pair(predictions@, actuals@, a, p) by {
                    lemma_row_cell_bound(n_classes as int, a, p + 1);
                    lemma_count_cell_is_pair(predictions@, actuals@, n_classes as int, a, p);
                }
            }
        }
        ConfusionMatrix {
            n_classes,
            counts,
            predictions: Ghost(predictions@),
            actuals: Ghost(actuals@),
        }
    }

    /// Number of classes (the side of the table).
    pub fn n_classes(&self) -> (n: usize)
        ensures
            n == self.classes(),
    {
        self.n_classes
    }

    /// Count of samples of class `actual_class` predicted as
    /// `predicted_class`.
    pub fn get(&self, actual_class: usize, predicted_class: usize) -> (v: usize)
        requires
            cell(actual_class as int, predicted_class as int, self.classes() as int) < self.classes()
                * self.classes(),
        ensures
            v == self@[cell(actual_class as int, predicted_class as int, self.classes() as int)],
            labels_in_range(self.predictions(), self.actuals(), self.classes() as int)
                && actual_class < self.classes() && predicted_class < self.classes() ==> v
                == count_pair(
                self.predictions(),
                self.actuals(),
                actual_class as int,
                predicted_class as int,
            ),
    {
        proof {
            use_type_invariant(self);
            if labels_in_range(self.predictions(), self.actuals(), self.classes() as int)
                && actual_class < self.classes() && predicted_class < self.classes() {
                lemma_count_cell_is_pair(
                    self.predictions(),
                    self.actuals(),
                    self.classes() as int,
                    actual_class as int,
                    predicted_class as int,
                );
            }
        }
        self.counts[actual_class * self.n_classes + predicted_class]
    }
    /// Number of samples whose actual class is `actual_class`
    /// (the sum of that row).
    pub fn row_total(&self, actual_class: usize) -> (v: usize)
        requires
            actual_class < self.classes(),
        ensures
            v == row_sum(self@, self.classes() as int, actual_class as int, self.classes() as int),
            labels_in_range(self.predictions(), self.actuals(), self.classes() as int) ==> v
                == count_actual(self.actuals(), actual_class as int),
    {
        proof {
            use_type_invariant(self);
        }
        let n = self.n_classes;
        let ghost s = self.counts@;
        let mut sum: usize = 0;
        let mut p: usize = 0;
        while p < n
            invariant
                p <= n,
                n == self.n_classes,
                actual_class < n,
                s == self@,
                s.len() == n * n,
                n * n <= usize::MAX,
                total(s) <= usize::MAX,
                sum == row_sum(s, n as int, actual_class as int, p as int),
            decreases n - p,
        {
            proof {
                lemma_row_cell_bound(n as int, actual_class as int, (p + 1) as int);
                lemma_row_sum_selected(s, n as int, actual_class as int, (p + 1) as int);
                lemma_sum_where_le_total(s, row_selection(n as int, actual_class as int, (p + 1) as int));
            }
            sum = sum + self.get(actual_class, p);
            p = p + 1;
        }
        proof {
            if labels_in_range(self.predictions(), self.actuals(), n as int) {
                lemma_row_sum_counts(s, self.predictions(), self.actuals(), n as int, actual_class as int, n as int);
                lemma_actual_below_all(self.predictions(), self.actuals(), n as int, actual_class as int);
            }
        }
        sum
    }

    /// (correct, total) for one class: the diagonal count of the class
    /// and the number of samples that truly belong to it. The
    /// per-class accuracy (recall) is `correct / total`, or 0 when
    /// `total` is 0.
    pub fn class_counts(&self, class: usize) -> (r: (usize, usize))
        requires
            class < self.classes(),
        ensures
            r.0 == self@[cell(class as int, class as int, self.classes() as int)],
            r.1 == row_sum(self@, self.classes() as int, class as int, self.classes() as int),
            labels_in_range(self.predictions(), self.actuals(), self.classes() as int) ==> r.0
                == count_pair(self.predictions(), self.actuals(), class as int, class as int) && r.1
                == count_actual(self.actuals(), class as int),
    {
        proof {
            use_type_invariant(self);
            lemma_row_cell_bound(self.n_classes as int, class as int, class as int + 1);
        }
        (self.get(class, class), self.row_total(class))
    }

    /// (correct, total) over all classes: the sum of the diagonal and
    /// the sum of every cell. The overall accuracy is
    /// `correct / total`, or 0 when `total` is 0.
    pub fn overall_counts(&self) -> (r: (usize, usize))
        ensures
            r.0 == trace(self@, self.classes() as int, self.classes() as int),
            r.1 == total(self@),
            r.1 == self.predictions().len(),
            labels_in_range(self.predictions(), self.actuals(), self.classes() as int) ==> r.0
                == count_correct(self.predictions(), self.actuals()),
    {
        proof {
            use_type_invariant(self);
        }
        let n = self.n_classes;
        let ghost s = self.counts@;
        let mut correct: usize = 0;
        let mut i: usize = 0;
        while i < n
            invariant
                i <= n,
                n == self.n_classes,
                s == self@,
                s.len() == n * n,
                n * n <= usize::MAX,
                total(s) <= usize::MAX,
                correct == trace(s, n as int, i as int),
            decreases n - i,
        {
            proof {
                lemma_row_cell_bound(n as int, i as int, (i + 1) as int);
                lemma_trace_selected(s, n as int, (i + 1) as int);
                lemma_sum_where_le_total(s, diag_selection(n as int, (i + 1) as int));
            }
            correct = correct + self.get(i, i);
            i = i + 1;
        }
        let len = self.counts.len();
        proof {
            lemma_sum_where_congruent(s, |x: int| x < 0, |x: int| false);
            lemma_sum_where_none(s);
        }
        let mut sum: usize = 0;
        let mut k: usize = 0;
        while k < len
            invariant
                k <= len,
                len == s.len(),
                s == self.counts@,
                total(s) <= usize::MAX,
                sum == sum_where(s, |x: int| x < k),
            decreases len - k,
        {
            proof {
                lemma_sum_where_add(s, |x: int| x < k, |x: int| x < k + 1, k as int);
                lemma_sum_where_le_total(s, |x: int| x < k + 1);
            }
            sum = sum + self.counts[k];
            k = k + 1;
        }
        proof {
            lemma_sum_where_congruent(s, |x: int| x < len, |x: int| true);
            if labels_in_range(self.predictions(), self.actuals(), n as int) {
                lemma_trace_counts(s, self.predictions(), self.actuals(), n as int, n as int);
                lemma_correct_below_all(self.predictions(), self.actuals(), n as int);
            }
        }
        (correct, sum)
    }
    /// Classes ordered from worst to best accuracy (a class without
    /// samples counts as 0), ties kept in class order.
    pub fn classes_by_accuracy(&self) -> (order: Vec<usize>)
        ensures
            order@.len() == self.classes(),
            forall|i: int| 0 <= i < order@.len() ==> #[trigger] order@[i] < self.classes(),
            forall|c: usize| c < self.classes() ==> order@.contains(c),
            ranked(self@, self.classes() as int, order@),
    {
        let n = self.n_classes;
        let ghost s = self@;
        let mut nums: Vec<usize> = Vec::new();
        let mut dens: Vec<usize> = Vec::new();
        let mut c: usize = 0;
        while c < n
            invariant
                c <= n,
                n == self.classes(),
                s == self@,
                nums@.len() == c,
                dens@.len() == c,
                forall|x: int|
                    0 <= x < c ==> #[trigger] nums@[x] == accuracy_num(s, n as int, x)
                        && dens@[x] == accuracy_den(s, n as int, x),
            decreases n - c,
        {
            let (correct, class_total) = self.class_counts(c);
            if class_total == 0 {
                nums.push(0);
                dens.push(1);
            } else {
                nums.push(correct);
                dens.push(class_total);
            }
            c = c + 1;
        }
        let mut order: Vec<usize> = Vec::new();
        let mut c: usize = 0;
        while c < n
            invariant
                c <= n,
                n == self.classes(),
                s == self@,
                nums@.len() == n,
                dens@.len() == n,
                forall|x: int|
                    0 <= x < n ==> #[trigger] nums@[x] == accuracy_num(s, n as int, x)
                        && dens@[x] == accuracy_den(s, n as int, x),
                order@.len() == c,
                forall|i: int| 0 <= i < order@.len() ==> #[trigger] order@[i] < c,
                forall|x: usize| x < c ==> order@.contains(x),
                ranked(s, n as int, order@),
            decreases n - c,
        {
            let mut pos: usize = 0;
            let mut found = false;
            while pos < order.len() && !found
                invariant
                    pos <= order@.len(),
                    c < n,
                    nums@.len() == n,
                    dens@.len() == n,
                    forall|x: int|
                        0 <= x < n ==> #[trigger] nums@[x] == accuracy_num(s, n as int, x)
                            && dens@[x] == accuracy_den(s, n as int, x),
                    forall|i: int| 0 <= i < order@.len() ==> #[trigger] order@[i] < c,
                    forall|q: int|
                        0 <= q < pos ==> !less_accurate(s, n as int, c as int, #[trigger] order@[q] as int),
                    found ==> pos < order@.len() && less_accurate(s, n as int, c as int, order@[pos as int] as int),
                decreases order@.len() - pos + if found { 0int } else { 1int },
            {
                let y = order[pos];
                if fraction_less(nums[c], dens[c], nums[y], dens[y]) {
                    found = true;
                } else {
                    pos = pos + 1;
                }
            }
            proof {
                let o = order@;
                assert forall|q: int| 0 <= q < pos implies #[trigger] ranks_before(
                    s,
                    n as int,
                    o[q] as int,
                    c as int,
                ) by {
                    assert(!less_accurate(s, n as int, c as int, o[q] as int));
                }
                assert forall|q: int| pos <= q < o.len() implies #[trigger] ranks_before(
                    s,
                    n as int,
                    c as int,
                    o[q] as int,
                ) by {
                    if q > pos {
                        assert(ranks_before(s, n as int, o[pos as int] as int, o[q] as int));
                        let (nc, dc) = (accuracy_num(s, n as int, c as int), accuracy_den(s, n as int, c as int));
                        let (np, dp) = (
                            accuracy_num(s, n as int, o[pos as int] as int),
                            accuracy_den(s, n as int, o[pos as int] as int),
                        );
                        let (nq, dq) = (accuracy_num(s, n as int, o[q] as int), accuracy_den(s, n as int, o[q] as int));
                        lemma_less_then_not_less_trans(nc, dc, np, dp, nq, dq);
                    }
                }
                lemma_insert_ranked(s, n as int, o, pos as int, c);
            }
            let ghost prev = order@;
            order.insert(pos, c);
            proof {
                let o = order@;
                assert forall|x: usize| x < c + 1 implies o.contains(x) by {
                    if x == c {
                        assert(o[pos as int] == c);
                    } else {
                        assert(prev.contains(x));
                        let i = choose|i: int| 0 <= i < prev.len() && prev[i] == x;
                        if i < pos {
                            assert(o[i] == x);
                        } else {
                            assert(o[i + 1] == x);
                        }
                    }
                }
            }
            c = c + 1;
        }
        order
    }
}

proof fn lemma_total_zeros(s: Seq<usize>)
    requires
        forall|k: int| 0 <= k < s.len() ==> #[trigger] s[k] == 0,
    ensures
        total(s) == 0,
    decreases s.len(),
{
    if s.len() > 0 {
        lemma_total_zeros(s.drop_last());
    }
}

/// One more sample, of class `a0` predicted as `p0`, adds one to the
/// count of the pair (a0, p0) and to no other pair, one to the samples
/// of class `a0`, and one to the correct predictions exactly when
/// `p0 == a0`. With no samples every count is 0.
pub proof fn lemma_one_more_sample(
    predictions: Seq<usize>,
    actuals: Seq<usize>,
    a0: usize,
    p0: usize,
    a: int,
    p: int,
)
    requires
        predictions.len() == actuals.len(),
    ensures
        count_pair(predictions.push(p0), actuals.push(a0), a, p) == count_pair(predictions, actuals, a, p)
            + if a == a0 && p == p0 {
            1nat
        } else {
            0nat
        },
        count_actual(actuals.push(a0), a) == count_actual(actuals, a) + if a == a0 {
            1nat
        } else {
            0nat
        },
        count_correct(predictions.push(p0), actuals.push(a0)) == count_correct(predictions, actuals)
            + if a0 == p0 {
            1nat
        } else {
            0nat
        },
        count_pair(Seq::empty(), Seq::empty(), a, p) == 0,
        count_actual(Seq::empty(), a) == 0,
        count_correct(Seq::empty(), Seq::empty()) == 0,
{
    assert(predictions.push(p0).drop_last() =~= predictions);
    assert(actuals.push(a0).drop_last() =~= actuals);
}

/// Classes ranked worst to best: of two classes with samples, the one
/// listed first has `correct * other_total <= other_correct * total`;
/// a class without samples counts as accuracy 0; equal accuracies are
/// listed in class order.
pub proof fn lemma_ranking_worst_first(s: Seq<usize>, n: int, order: Seq<usize>, i: int, j: int)
    requires
        ranked(s, n, order),
        0 <= i < j < order.len(),
    ensures
        ({
            let x = order[i] as int;
            let y = order[j] as int;
            let cx = s[cell(x, x, n)] as int;
            let cy = s[cell(y, y, n)] as int;
            let tx = row_sum(s, n, x, n) as int;
            let ty = row_sum(s, n, y, n) as int;
            &&& tx > 0 && ty > 0 ==> cx * ty <= cy * tx && (cx * ty == cy * tx ==> x < y)
            &&& tx > 0 && ty == 0 ==> cx == 0 && x < y
            &&& tx == 0 && ty > 0 ==> cy > 0 || x < y
            &&& tx == 0 && ty == 0 ==> x < y
        }),
{
    assert(ranks_before(s, n, order[i] as int, order[j] as int));
}

} // verus!
