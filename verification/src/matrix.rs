use vstd::prelude::*;

use crate::fraction::Fraction;
use crate::row::{Row, RowModel};
use crate::SolveError;

verus! {

/// The elimination progress of a matrix.  The index is always a position in
/// the row/column visit orders, not a raw row or column number.
#[derive(Clone, Copy, Debug, PartialEq, Eq, Structural)]
pub enum MatrixState {
    Initial,
    Null(usize),
    NormalizeRow(usize),
    ReInsertRow(usize),
    Done,
}

/// The mathematical content of a matrix: its rows, its elimination state and
/// the two visit-order permutations.
pub struct MatrixModel {
    pub rows: Seq<RowModel>,
    pub state: MatrixState,
    pub rs: Seq<usize>,
    pub cs: Seq<usize>,
}

/// Every index a state carries stays inside the row order of a matrix with
/// `n` rows.
pub open spec fn state_idx_ok(s: MatrixState, n: int) -> bool {
    match s {
        MatrixState::Initial => true,
        MatrixState::Null(k) => k + 2 <= n,
        MatrixState::NormalizeRow(k) => k < n,
        MatrixState::ReInsertRow(k) => k < n,
        MatrixState::Done => true,
    }
}

/// Rows fit for matrix construction: at least one row, uniform shapes, an
/// at-least-square coefficient side, well-formed entries, and a machine-size
/// bound needed by the pivot search.
pub open spec fn rows_ok(rows: Seq<RowModel>) -> bool {
    &&& rows.len() >= 1
    &&& forall|i: int| 0 <= i < rows.len() ==> (#[trigger] rows[i]).wf()
    &&& forall|i: int| 0 <= i < rows.len() ==> (#[trigger] rows[i]).l.len() == rows[0].l.len()
    &&& forall|i: int| 0 <= i < rows.len() ==> (#[trigger] rows[i]).r.len() == rows[0].r.len()
    &&& rows[0].l.len() >= rows.len()
    &&& rows[0].r.len() >= 1
    &&& rows[0].l.len() * rows.len() <= usize::MAX
}

/// `s` lists `n` pairwise distinct values below `n`: a permutation of `0..n`.
pub open spec fn is_perm(s: Seq<usize>, n: int) -> bool {
    &&& s.len() == n
    &&& forall|i: int| 0 <= i < s.len() ==> (#[trigger] s[i]) < n
    &&& forall|i: int, j: int| 0 <= i < j < s.len() ==> s[i] != s[j]
}

impl MatrixModel {
    /// The number of rows.
    pub open spec fn n(self) -> int {
        self.rows.len() as int
    }

    /// The number of coefficient columns (shared by every row).
    pub open spec fn width(self) -> int {
        if self.rows.len() == 0 {
            0
        } else {
            self.rows[0].l.len() as int
        }
    }

    /// The number of constant columns (shared by every row).
    pub open spec fn rwidth(self) -> int {
        if self.rows.len() == 0 {
            0
        } else {
            self.rows[0].r.len() as int
        }
    }

    /// Bounds that keep every state index meaningful.
    pub open spec fn state_ok(self) -> bool {
        state_idx_ok(self.state, self.n())
    }

    /// Well-formed: at least one row, uniform row shapes, an at-least-square
    /// coefficient side, well-formed entries, two permutations, a meaningful
    /// state, and a machine-size bound used by the pivot search.
    pub open spec fn wf(self) -> bool {
        &&& self.n() >= 1
        &&& forall|i: int| 0 <= i < self.n() ==> (#[trigger] self.rows[i]).wf()
        &&& forall|i: int| 0 <= i < self.n() ==> (#[trigger] self.rows[i]).l.len() == self.width()
        &&& forall|i: int| 0 <= i < self.n() ==> (#[trigger] self.rows[i]).r.len() == self.rwidth()
        &&& self.width() >= self.n()
        &&& self.rwidth() >= 1
        &&& self.width() * self.n() <= usize::MAX
        &&& is_perm(self.rs, self.n())
        &&& is_perm(self.cs, self.width())
        &&& self.state_ok()
    }

    /// The row visited at position `p` of the row order.
    pub open spec fn pos_row(self, p: int) -> RowModel {
        self.rows[self.rs[p] as int]
    }

    /// The cell at row position `p` and column position `cp`.
    pub open spec fn cell(self, p: int, cp: int) -> Fraction {
        self.pos_row(p).l[self.cs[cp] as int]
    }
}

/// The row at position `p` still has a non-zero entry in a pivot column that
/// comes before position `p` in the column order.
pub open spec fn dirty_before(m: MatrixModel, p: int) -> bool {
    exists|j: int| 0 <= j < p && (#[trigger] m.cell(p, j)).num() != 0
}

/// The row at position `p` still has a non-zero entry in a column that comes
/// after position `p` in the column order.
pub open spec fn dirty_after(m: MatrixModel, p: int) -> bool {
    exists|j: int| p < j < m.width() && (#[trigger] m.cell(p, j)).num() != 0
}

/// Forward scan of the row order: the first position whose row is dirty in an
/// earlier pivot column decides the next `Null` state; when none is, forward
/// elimination is complete and the reverse scan decides.
pub open spec fn null_scan(m: MatrixModel, p: int) -> MatrixState
    decreases m.n() - p, 1int,
{
    if p < 0 || p >= m.n() {
        norm_scan(m, m.n() - 1)
    } else if dirty_before(m, p) {
        MatrixState::Null((p - 1) as usize)
    } else {
        null_scan(m, p + 1)
    }
}

/// Reverse scan of the row order: a row with later non-zero pivot columns
/// needs back-substitution; failing that, a pivot cell that is not exactly
/// one needs normalization; when neither applies anywhere, elimination is
/// done.
pub open spec fn norm_scan(m: MatrixModel, p: int) -> MatrixState
    decreases p + 1, 0int,
{
    if p < 0 {
        MatrixState::Done
    } else if dirty_after(m, p) {
        MatrixState::ReInsertRow(p as usize)
    } else if m.cell(p, p).num() != m.cell(p, p).den() {
        MatrixState::NormalizeRow(p as usize)
    } else {
        norm_scan(m, p - 1)
    }
}

/// The state the matrix recomputes after a step, from its current state and
/// its zero pattern.
pub open spec fn next_state_spec(m: MatrixModel) -> MatrixState {
    match m.state {
        MatrixState::Initial => null_scan(m, 0),
        MatrixState::Null(_) => null_scan(m, 0),
        MatrixState::NormalizeRow(_) => norm_scan(m, m.n() - 1),
        MatrixState::ReInsertRow(_) => norm_scan(m, m.n() - 1),
        MatrixState::Done => MatrixState::Done,
    }
}

/// The forward scan does not change while clean positions are skipped.
proof fn lemma_null_scan_skip(m: MatrixModel, p: int)
    requires
        0 <= p <= m.n(),
        forall|q: int| 0 <= q < p ==> !dirty_before(m, q),
    ensures
        null_scan(m, 0) == null_scan(m, p),
    decreases p,
{
    if p > 0 {
        lemma_null_scan_skip(m, p - 1);
        assert(null_scan(m, p - 1) == null_scan(m, p));
    }
}

/// The result of the forward scan is a meaningful state.
proof fn lemma_null_scan_ok(m: MatrixModel, p: int)
    requires
        m.n() >= 1,
        0 <= p,
    ensures
        ({
            let s = MatrixModel { state: null_scan(m, p), ..m };
            s.state_ok()
        }),
    decreases m.n() - p, 1int,
{
    if p < 0 || p >= m.n() {
        lemma_norm_scan_ok(m, m.n() - 1);
    } else if dirty_before(m, p) {
        assert(!dirty_before(m, 0));
        assert(p >= 1);
        assert(p - 1 + 2 <= m.n());
    } else {
        lemma_null_scan_ok(m, p + 1);
    }
}

/// The result of the reverse scan is a meaningful state.
proof fn lemma_norm_scan_ok(m: MatrixModel, p: int)
    requires
        p < m.n(),
    ensures
        ({
            let s = MatrixModel { state: norm_scan(m, p), ..m };
            s.state_ok()
        }),
    decreases p + 1, 0int,
{
    if p >= 0 && !dirty_after(m, p) && m.cell(p, p).num() == m.cell(p, p).den() {
        lemma_norm_scan_ok(m, p - 1);
    }
}

/// The row is zero in every column listed in `cols`.
pub open spec fn row_all_zero(r: RowModel, cols: Seq<usize>) -> bool {
    forall|j: int| 0 <= j < cols.len() ==> r.l[(#[trigger] cols[j]) as int].num() == 0
}

/// Among the first `upto` rows, how many are zero in all columns of `cols`
/// and also zero in column `c`.
pub open spec fn zero_count(rows: Seq<RowModel>, cols: Seq<usize>, c: usize, upto: int) -> nat
    decreases upto,
{
    if upto <= 0 {
        0
    } else {
        zero_count(rows, cols, c, upto - 1) + if row_all_zero(rows[upto - 1], cols) && rows[upto
            - 1].l[c as int].num() == 0 {
            1nat
        } else {
            0nat
        }
    }
}

/// The greatest `zero_count` over the not-yet-chosen columns `i..m`.
pub open spec fn max_count_from(rows: Seq<RowModel>, cols: Seq<usize>, m: int, i: int) -> nat
    decreases m - i,
{
    if i < 0 || i >= m {
        0
    } else {
        let rest = max_count_from(rows, cols, m, i + 1);
        if !cols.contains(i as usize) {
            let v = zero_count(rows, cols, i as usize, rows.len() as int);
            if v > rest {
                v
            } else {
                rest
            }
        } else {
            rest
        }
    }
}

/// The pivot-column search: extend `cols` one column at a time, always by a
/// not-yet-chosen column whose `zero_count` is greatest, exploring every such
/// tied candidate and keeping the branch with the greatest cumulative count
/// (the smallest column index on a tie).  Returns the full column order and
/// the cumulative count.
pub open spec fn best_search(cols: Seq<usize>, rows: Seq<RowModel>, m: int) -> (Seq<usize>, nat)
    decreases m - cols.len(), 1int, 0int,
{
    if cols.len() >= m {
        (cols, 0nat)
    } else {
        let vmax = max_count_from(rows, cols, m, 0);
        match best_branch(cols, rows, m, 0, vmax) {
            Some(r) => r,
            None => (cols, 0nat),
        }
    }
}

/// The best branch among the tied candidates with index at least `i`.
pub open spec fn best_branch(
    cols: Seq<usize>,
    rows: Seq<RowModel>,
    m: int,
    i: int,
    vmax: nat,
) -> Option<(Seq<usize>, nat)>
    decreases m - cols.len(), 0int, m - i,
{
    if cols.len() >= m || i < 0 || i >= m {
        None
    } else {
        let rest = best_branch(cols, rows, m, i + 1, vmax);
        if !cols.contains(i as usize) && zero_count(rows, cols, i as usize, rows.len() as int)
            == vmax {
            let sub = best_search(cols.push(i as usize), rows, m);
            let mine = (sub.0, (sub.1 + vmax) as nat);
            match rest {
                None => Some(mine),
                Some(r) => Some(
                    if mine.1 >= r.1 {
                        mine
                    } else {
                        r
                    },
                ),
            }
        } else {
            rest
        }
    }
}

/// The column order the optimizer chooses.
pub open spec fn opt_cols_spec(rows: Seq<RowModel>, m: int) -> Seq<usize> {
    best_search(Seq::empty(), rows, m).0
}

/// The first position at or after `j` of a column of `cols` in which the row
/// is not zero; `cols.len()` when there is none.  `zero_prefix(r, cols, 0)`
/// is the length of the leading run of chosen columns in which the row is
/// zero.
pub open spec fn zero_prefix(r: RowModel, cols: Seq<usize>, j: int) -> int
    decreases cols.len() - j,
{
    if j < 0 || j >= cols.len() {
        j
    } else if r.l[cols[j] as int].num() == 0 {
        zero_prefix(r, cols, j + 1)
    } else {
        j
    }
}

/// The sort key of row `v`: in how many leading chosen columns it is zero.
pub open spec fn row_key(rows: Seq<RowModel>, cols: Seq<usize>, v: usize) -> int {
    zero_prefix(rows[v as int], cols, 0)
}

/// Stable insertion of `v` into `s`: `v` goes after every entry whose key is
/// at most its own.
pub open spec fn insert_sorted(
    s: Seq<usize>,
    rows: Seq<RowModel>,
    cols: Seq<usize>,
    v: usize,
) -> Seq<usize>
    decreases s.len(),
{
    if s.len() == 0 {
        seq![v]
    } else if row_key(rows, cols, s.last()) > row_key(rows, cols, v) {
        insert_sorted(s.drop_last(), rows, cols, v).push(s.last())
    } else {
        s.push(v)
    }
}

/// The row indices `0..upto`, stably sorted by ascending key.
pub open spec fn sorted_rows_upto(rows: Seq<RowModel>, cols: Seq<usize>, upto: int) -> Seq<usize>
    decreases upto,
{
    if upto <= 0 {
        Seq::empty()
    } else {
        insert_sorted(sorted_rows_upto(rows, cols, upto - 1), rows, cols, (upto - 1) as usize)
    }
}

/// The row order the optimizer derives from the chosen column order.
pub open spec fn opt_rows_spec(rows: Seq<RowModel>, cols: Seq<usize>) -> Seq<usize> {
    sorted_rows_upto(rows, cols, rows.len() as int)
}

/// A `zero_count` over `upto` rows is at most `upto`.
proof fn lemma_zero_count_le(rows: Seq<RowModel>, cols: Seq<usize>, c: usize, upto: int)
    requires
        upto >= 0,
    ensures
        zero_count(rows, cols, c, upto) <= upto,
    decreases upto,
{
    if upto > 0 {
        lemma_zero_count_le(rows, cols, c, upto - 1);
    }
}

/// The greatest `zero_count` is at most the number of rows.
proof fn lemma_max_count_le(rows: Seq<RowModel>, cols: Seq<usize>, m: int, i: int)
    ensures
        max_count_from(rows, cols, m, i) <= rows.len(),
    decreases m - i,
{
    if !(i < 0 || i >= m) {
        lemma_max_count_le(rows, cols, m, i + 1);
        if !cols.contains(i as usize) {
            lemma_zero_count_le(rows, cols, i as usize, rows.len() as int);
        }
    }
}

/// Fewer than `m` distinct values below `m` leave some value unused.
proof fn lemma_missing_value(s: Seq<usize>, m: int)
    requires
        forall|i: int| 0 <= i < s.len() ==> (#[trigger] s[i]) < m,
        forall|i: int, j: int| 0 <= i < j < s.len() ==> s[i] != s[j],
        s.len() < m,
        m <= usize::MAX,
    ensures
        exists|c: int| 0 <= c < m && !(#[trigger] s.contains(c as usize)),
    decreases m,
{
    if !s.contains((m - 1) as usize) {
        assert(0 <= m - 1 < m);
    } else {
        let idx = choose|idx: int| 0 <= idx < s.len() && s[idx] == (m - 1) as usize;
        let s2 = s.remove(idx);
        assert forall|i: int| 0 <= i < s2.len() implies (#[trigger] s2[i]) < m - 1 by {
            if i < idx {
                assert(s2[i] == s[i]);
            } else {
                assert(s2[i] == s[i + 1]);
            }
        }
        assert forall|i: int, j: int| 0 <= i < j < s2.len() implies s2[i] != s2[j] by {
            assert(s2[i] == if i < idx {
                s[i]
            } else {
                s[i + 1]
            });
            assert(s2[j] == if j < idx {
                s[j]
            } else {
                s[j + 1]
            });
        }
        lemma_missing_value(s2, m - 1);
        let c = choose|c: int| 0 <= c < m - 1 && !(#[trigger] s2.contains(c as usize));
        assert(c as usize != (m - 1) as usize);
        assert(!s.contains(c as usize)) by {
            if s.contains(c as usize) {
                let k = choose|k: int| 0 <= k < s.len() && s[k] == c as usize;
                assert(k != idx);
                if k < idx {
                    assert(s2[k] == s[k]);
                } else {
                    assert(s2[k - 1] == s[k]);
                }
            }
        }
    }
}

/// The greatest `zero_count` over `i..m` is achieved by some candidate there,
/// whenever a candidate exists.
proof fn lemma_max_achieved(rows: Seq<RowModel>, cols: Seq<usize>, m: int, i: int)
    requires
        0 <= i,
        exists|c: int| i <= c < m && !(#[trigger] cols.contains(c as usize)),
    ensures
        exists|c: int|
            i <= c < m && !(#[trigger] cols.contains(c as usize)) && zero_count(rows, cols, c as usize, rows.len() as int)
                == max_count_from(rows, cols, m, i),
    decreases m - i,
{
    let rest = max_count_from(rows, cols, m, i + 1);
    if !cols.contains(i as usize) {
        let v = zero_count(rows, cols, i as usize, rows.len() as int);
        if v > rest {
            assert(max_count_from(rows, cols, m, i) == v);
        } else {
            if exists|c: int| i + 1 <= c < m && !(#[trigger] cols.contains(c as usize)) {
                lemma_max_achieved(rows, cols, m, i + 1);
            } else {
                assert(rest == 0) by {
                    lemma_max_count_none(rows, cols, m, i + 1);
                }
                assert(v == rest);
                assert(max_count_from(rows, cols, m, i) == v);
            }
        }
    } else {
        assert(exists|c: int| i + 1 <= c < m && !(#[trigger] cols.contains(c as usize)));
        lemma_max_achieved(rows, cols, m, i + 1);
        assert(max_count_from(rows, cols, m, i) == rest);
    }
}

/// With no candidate left, the greatest count is zero.
proof fn lemma_max_count_none(rows: Seq<RowModel>, cols: Seq<usize>, m: int, i: int)
    requires
        forall|c: int| i <= c < m ==> #[trigger] cols.contains(c as usize),
    ensures
        max_count_from(rows, cols, m, i) == 0,
    decreases m - i,
{
    if !(i < 0 || i >= m) {
        lemma_max_count_none(rows, cols, m, i + 1);
    }
}

/// A candidate achieving `vmax` at or after `i` makes the branch search
/// return a result.
proof fn lemma_branch_some(rows: Seq<RowModel>, cols: Seq<usize>, m: int, i: int, vmax: nat)
    requires
        cols.len() < m,
        0 <= i,
        exists|c: int|
            i <= c < m && !(#[trigger] cols.contains(c as usize)) && zero_count(rows, cols, c as usize, rows.len() as int)
                == vmax,
    ensures
        best_branch(cols, rows, m, i, vmax) is Some,
    decreases m - i,
{
    if !(!cols.contains(i as usize) && zero_count(rows, cols, i as usize, rows.len() as int)
        == vmax) {
        assert(exists|c: int|
            i + 1 <= c < m && !(#[trigger] cols.contains(c as usize)) && zero_count(
                rows,
                cols,
                c as usize,
                rows.len() as int,
            ) == vmax);
        lemma_branch_some(rows, cols, m, i + 1, vmax);
    }
}

/// Shape of the column search result: it is `cols` extended to a full list of
/// `m` distinct in-range columns, and its cumulative count is bounded by the
/// matrix size.
proof fn lemma_best_search_props(cols: Seq<usize>, rows: Seq<RowModel>, m: int)
    requires
        cols.len() <= m,
        m <= usize::MAX,
        forall|i: int| 0 <= i < cols.len() ==> (#[trigger] cols[i]) < m,
        forall|i: int, j: int| 0 <= i < j < cols.len() ==> cols[i] != cols[j],
    ensures
        ({
            let r = best_search(cols, rows, m);
            &&& r.0.len() == m
            &&& r.0.subrange(0, cols.len() as int) == cols
            &&& forall|i: int| 0 <= i < r.0.len() ==> (#[trigger] r.0[i]) < m
            &&& forall|i: int, j: int| 0 <= i < j < r.0.len() ==> r.0[i] != r.0[j]
            &&& r.1 <= (m - cols.len()) * rows.len()
        }),
    decreases m - cols.len(), 1int, 0int,
{
    let r = best_search(cols, rows, m);
    if cols.len() >= m {
        assert(r.0.subrange(0, cols.len() as int) =~= cols);
    } else {
        let vmax = max_count_from(rows, cols, m, 0);
        lemma_max_count_le(rows, cols, m, 0);
        lemma_missing_value(cols, m);
        lemma_max_achieved(rows, cols, m, 0);
        lemma_branch_some(rows, cols, m, 0, vmax);
        lemma_best_branch_props(cols, rows, m, 0, vmax);
    }
}

/// Shape of a branch result, as for the whole search.
proof fn lemma_best_branch_props(cols: Seq<usize>, rows: Seq<RowModel>, m: int, i: int, vmax: nat)
    requires
        cols.len() < m,
        m <= usize::MAX,
        0 <= i,
        vmax <= rows.len(),
        forall|k: int| 0 <= k < cols.len() ==> (#[trigger] cols[k]) < m,
        forall|k: int, j: int| 0 <= k < j < cols.len() ==> cols[k] != cols[j],
    ensures
        ({
            match best_branch(cols, rows, m, i, vmax) {
                Some(r) => {
                    &&& r.0.len() == m
                    &&& r.0.subrange(0, cols.len() as int) == cols
                    &&& (forall|k: int| 0 <= k < r.0.len() ==> (#[trigger] r.0[k]) < m)
                    &&& (forall|k: int, j: int| 0 <= k < j < r.0.len() ==> r.0[k] != r.0[j])
                    &&& r.1 <= (m - cols.len()) * rows.len()
                },
                None => true,
            }
        }),
    decreases m - cols.len(), 0int, m - i,
{
    if !(cols.len() >= m || i < 0 || i >= m) {
        lemma_best_branch_props(cols, rows, m, i + 1, vmax);
        if !cols.contains(i as usize) && zero_count(rows, cols, i as usize, rows.len() as int)
            == vmax {
            let cols2 = cols.push(i as usize);
            assert(forall|k: int| 0 <= k < cols2.len() ==> (#[trigger] cols2[k]) < m);
            assert forall|k: int, j: int| 0 <= k < j < cols2.len() implies cols2[k] != cols2[j] by {
                if j == cols.len() as int {
                    assert(cols2[j] == i as usize);
                    assert(cols2[k] == cols[k]);
                    if cols[k] == i as usize {
                        assert(cols.contains(i as usize));
                    }
                }
            }
            lemma_best_search_props(cols2, rows, m);
            let sub = best_search(cols2, rows, m);
            assert(sub.0.subrange(0, cols.len() as int) =~= cols) by {
                assert(sub.0.subrange(0, cols2.len() as int) == cols2);
                assert forall|k: int| 0 <= k < cols.len() implies sub.0[k] == cols[k] by {
                    assert(sub.0.subrange(0, cols2.len() as int)[k] == cols2[k]);
                }
            }
            assert(sub.1 + vmax <= (m - cols.len()) * rows.len()) by (nonlinear_arith)
                requires
                    sub.1 <= (m - cols2.len()) * rows.len(),
                    cols2.len() == cols.len() + 1,
                    vmax <= rows.len(),
                    cols.len() < m,
            ;
        }
    }
}

/// Inserting into a stably sorted list adds exactly the new value.
proof fn lemma_insert_sorted_props(s: Seq<usize>, rows: Seq<RowModel>, cols: Seq<usize>, v: usize)
    ensures
        ({
            let r = insert_sorted(s, rows, cols, v);
            &&& r.len() == s.len() + 1
            &&& (forall|x: usize| r.contains(x) <==> (s.contains(x) || x == v))
            &&& ((forall|i: int, j: int| 0 <= i < j < s.len() ==> s[i] != s[j]) && !s.contains(v)
                ==> (forall|i: int, j: int| 0 <= i < j < r.len() ==> r[i] != r[j]))
        }),
    decreases s.len(),
{
    let r = insert_sorted(s, rows, cols, v);
    if s.len() == 0 {
        assert forall|x: usize| r.contains(x) <==> (s.contains(x) || x == v) by {
            if r.contains(x) {
                let k = choose|k: int| 0 <= k < r.len() && r[k] == x;
                assert(x == v);
            }
            if x == v {
                assert(r[0] == v);
            }
        }
    } else if row_key(rows, cols, s.last()) > row_key(rows, cols, v) {
        let t = s.drop_last();
        lemma_insert_sorted_props(t, rows, cols, v);
        let q = insert_sorted(t, rows, cols, v);
        assert(r == q.push(s.last()));
        assert forall|x: usize| r.contains(x) <==> (s.contains(x) || x == v) by {
            if r.contains(x) {
                let k = choose|k: int| 0 <= k < r.len() && r[k] == x;
                if k < q.len() {
                    assert(q.contains(x));
                    if t.contains(x) {
                        let k2 = choose|k2: int| 0 <= k2 < t.len() && t[k2] == x;
                        assert(s[k2] == x);
                    }
                } else {
                    assert(x == s.last());
                    assert(s[s.len() - 1] == x);
                }
            }
            if s.contains(x) {
                let k = choose|k: int| 0 <= k < s.len() && s[k] == x;
                if k < s.len() - 1 {
                    assert(t[k] == x);
                    assert(q.contains(x));
                    let k2 = choose|k2: int| 0 <= k2 < q.len() && q[k2] == x;
                    assert(r[k2] == x);
                } else {
                    assert(r[r.len() - 1] == x);
                }
            }
            if x == v {
                assert(q.contains(v));
                let k2 = choose|k2: int| 0 <= k2 < q.len() && q[k2] == v;
                assert(r[k2] == v);
            }
        }
        if (forall|i: int, j: int| 0 <= i < j < s.len() ==> s[i] != s[j]) && !s.contains(v) {
            assert(forall|i: int, j: int| 0 <= i < j < t.len() ==> t[i] != t[j]);
            assert(!t.contains(v)) by {
                if t.contains(v) {
                    let k = choose|k: int| 0 <= k < t.len() && t[k] == v;
                    assert(s[k] == v);
                }
            }
            assert(forall|i: int, j: int| 0 <= i < j < q.len() ==> q[i] != q[j]);
            assert(!q.contains(s.last())) by {
                if q.contains(s.last()) {
                    assert(t.contains(s.last()) || s.last() == v);
                    if t.contains(s.last()) {
                        let k = choose|k: int| 0 <= k < t.len() && t[k] == s.last();
                        assert(s[k] == s[s.len() - 1]);
                    }
                    if s.last() == v {
                        assert(s.contains(v)) by {
                            assert(s[s.len() - 1] == v);
                        }
                    }
                }
            }
            assert forall|i: int, j: int| 0 <= i < j < r.len() implies r[i] != r[j] by {
                if j < q.len() {
                    assert(r[i] == q[i] && r[j] == q[j]);
                } else {
                    assert(r[j] == s.last());
                    assert(r[i] == q[i]);
                    assert(q.contains(q[i]));
                }
            }
        }
    } else {
        assert(r == s.push(v));
        assert forall|x: usize| r.contains(x) <==> (s.contains(x) || x == v) by {
            if r.contains(x) {
                let k = choose|k: int| 0 <= k < r.len() && r[k] == x;
                if k < s.len() {
                    assert(s[k] == x);
                }
            }
            if s.contains(x) {
                let k = choose|k: int| 0 <= k < s.len() && s[k] == x;
                assert(r[k] == x);
            }
            if x == v {
                assert(r[r.len() - 1] == v);
            }
        }
        if (forall|i: int, j: int| 0 <= i < j < s.len() ==> s[i] != s[j]) && !s.contains(v) {
            assert forall|i: int, j: int| 0 <= i < j < r.len() implies r[i] != r[j] by {
                if j == s.len() as int {
                    assert(r[j] == v && r[i] == s[i]);
                    assert(s.contains(s[i]));
                }
            }
        }
    }
}

/// The sorted row order lists exactly the indices below `upto`, each once.
proof fn lemma_sorted_rows_props(rows: Seq<RowModel>, cols: Seq<usize>, upto: int)
    requires
        0 <= upto <= usize::MAX,
    ensures
        ({
            let r = sorted_rows_upto(rows, cols, upto);
            &&& r.len() == upto
            &&& (forall|x: usize| r.contains(x) <==> x < upto)
            &&& (forall|i: int| 0 <= i < r.len() ==> (#[trigger] r[i]) < upto)
            &&& (forall|i: int, j: int| 0 <= i < j < r.len() ==> r[i] != r[j])
        }),
    decreases upto,
{
    let r = sorted_rows_upto(rows, cols, upto);
    if upto > 0 {
        lemma_sorted_rows_props(rows, cols, upto - 1);
        let prev = sorted_rows_upto(rows, cols, upto - 1);
        let v = (upto - 1) as usize;
        assert(v == upto - 1);
        assert(!prev.contains(v));
        lemma_insert_sorted_props(prev, rows, cols, v);
        assert forall|i: int| 0 <= i < r.len() implies (#[trigger] r[i]) < upto by {
            assert(r.contains(r[i]));
        }
    }
}

/// Stable insertion lands at the position where every later entry has a
/// strictly greater key and the entry just before (if any) does not.
proof fn lemma_insert_sorted_at(
    s: Seq<usize>,
    rows: Seq<RowModel>,
    cols: Seq<usize>,
    v: usize,
    p: int,
)
    requires
        0 <= p <= s.len(),
        forall|j: int| p <= j < s.len() ==> row_key(rows, cols, #[trigger] s[j]) > row_key(
            rows,
            cols,
            v,
        ),
        p > 0 ==> row_key(rows, cols, s[p - 1]) <= row_key(rows, cols, v),
    ensures
        insert_sorted(s, rows, cols, v) == s.insert(p, v),
    decreases s.len(),
{
    if s.len() == 0 {
        assert(insert_sorted(s, rows, cols, v) =~= s.insert(0, v));
    } else if row_key(rows, cols, s.last()) > row_key(rows, cols, v) {
        assert(p < s.len()) by {
            if p == s.len() {
                assert(row_key(rows, cols, s[p - 1]) <= row_key(rows, cols, v));
            }
        }
        let t = s.drop_last();
        lemma_insert_sorted_at(t, rows, cols, v, p);
        assert(insert_sorted(s, rows, cols, v) == t.insert(p, v).push(s.last()));
        assert(t.insert(p, v).push(s.last()) =~= s.insert(p, v));
    } else {
        assert(p == s.len()) by {
            if p < s.len() {
                assert(row_key(rows, cols, s[s.len() - 1]) > row_key(rows, cols, v));
            }
        }
        assert(s.push(v) =~= s.insert(p, v));
    }
}

/// Copy a vector of indices element by element.
fn copy_usizes(v: &Vec<usize>) -> (r: Vec<usize>)
    ensures
        r@ == v@,
{
    let mut out: Vec<usize> = Vec::new();
    let mut i: usize = 0;
    while i < v.len()
        invariant
            i <= v.len(),
            out@ == v@.subrange(0, i as int),
        decreases v.len() - i,
    {
        out.push(v[i]);
        proof {
            assert(out@ =~= v@.subrange(0, i + 1));
        }
        i = i + 1;
    }
    proof {
        assert(out@ =~= v@);
    }
    out
}

/// Whether a vector of indices holds `x`.
fn contains_val(v: &Vec<usize>, x: usize) -> (r: bool)
    ensures
        r == v@.contains(x),
{
    let mut i: usize = 0;
    while i < v.len()
        invariant
            i <= v.len(),
            forall|j: int| 0 <= j < i ==> v@[j] != x,
        decreases v.len() - i,
    {
        if v[i] == x {
            return true;
        }
        i = i + 1;
    }
    proof {
        if v@.contains(x) {
            let k = choose|k: int| 0 <= k < v@.len() && v@[k] == x;
        }
    }
    false
}

/// How many rows are zero in every column of `cols` and in column `c`.
fn zero_count_exec(rows: &Vec<Row>, cols: &Vec<usize>, c: usize) -> (r: usize)
    requires
        forall|i: int| 0 <= i < rows@.len() ==> c < (#[trigger] rows@[i])@.l.len(),
        forall|i: int, j: int|
            0 <= i < rows@.len() && 0 <= j < cols@.len() ==> (#[trigger] cols@[j])
                < (#[trigger] rows@[i])@.l.len(),
    ensures
        r as nat == zero_count(seq_model(rows@), cols@, c, rows@.len() as int),
        r <= rows@.len(),
    decreases rows@.len(),
{
    let ghost model = seq_model(rows@);
    let mut count: usize = 0;
    let mut i: usize = 0;
    while i < rows.len()
        invariant
            forall|k: int| 0 <= k < rows@.len() ==> c < (#[trigger] rows@[k])@.l.len(),
            forall|k: int, j: int|
                0 <= k < rows@.len() && 0 <= j < cols@.len() ==> (#[trigger] cols@[j])
                    < (#[trigger] rows@[k])@.l.len(),
            model == seq_model(rows@),
            i <= rows@.len(),
            count <= i,
            count as nat == zero_count(model, cols@, c, i as int),
        decreases rows@.len() - i,
    {
        let mut all_zero: bool = true;
        let mut j: usize = 0;
        while j < cols.len()
            invariant
                forall|k: int, jj: int|
                    0 <= k < rows@.len() && 0 <= jj < cols@.len() ==> (#[trigger] cols@[jj])
                        < (#[trigger] rows@[k])@.l.len(),
                i < rows@.len(),
                j <= cols@.len(),
                model == seq_model(rows@),
                all_zero == (forall|jj: int|
                    0 <= jj < j ==> model[i as int].l[(#[trigger] cols@[jj]) as int].num() == 0),
            decreases cols@.len() - j,
        {
            if rows[i].left[cols[j]].numerator != 0 {
                all_zero = false;
                proof {
                    assert(model[i as int].l[cols@[j as int] as int].num() != 0);
                }
                j = cols.len();
            } else {
                proof {
                    assert(model[i as int].l[cols@[j as int] as int].num() == 0);
                }
                j = j + 1;
            }
        }
        proof {
            assert(all_zero == row_all_zero(model[i as int], cols@));
        }
        if all_zero && rows[i].left[c].numerator == 0 {
            count = count + 1;
        }
        proof {
            assert(count as nat == zero_count(model, cols@, c, i + 1));
        }
        i = i + 1;
    }
    count
}

/// The recursive pivot-column search, mirroring `best_search`.
fn search_cols(rows: &Vec<Row>, cols: Vec<usize>, m: usize) -> (res: (Vec<usize>, usize))
    requires
        forall|i: int| 0 <= i < rows@.len() ==> (#[trigger] rows@[i])@.l.len() == m,
        cols@.len() <= m,
        forall|i: int| 0 <= i < cols@.len() ==> (#[trigger] cols@[i]) < m,
        forall|i: int, j: int| 0 <= i < j < cols@.len() ==> cols@[i] != cols@[j],
        m * rows@.len() <= usize::MAX,
    ensures
        res.0@ == best_search(cols@, seq_model(rows@), m as int).0,
        res.1 as nat == best_search(cols@, seq_model(rows@), m as int).1,
    decreases m - cols@.len(),
{
    let ghost model = seq_model(rows@);
    let n = rows.len();
    if cols.len() >= m {
        return (cols, 0);
    }
    let mut vmax: usize = 0;
    let mut i: usize = m;
    while i > 0
        invariant
            forall|k: int| 0 <= k < rows@.len() ==> (#[trigger] rows@[k])@.l.len() == m,
            forall|k: int| 0 <= k < cols@.len() ==> (#[trigger] cols@[k]) < m,
            model == seq_model(rows@),
            n == rows@.len(),
            i <= m,
            vmax <= n,
            vmax as nat == max_count_from(model, cols@, m as int, i as int),
        decreases i,
    {
        i = i - 1;
        if !contains_val(&cols, i) {
            let v = zero_count_exec(rows, &cols, i);
            if v > vmax {
                vmax = v;
            }
        }
        proof {
            assert(vmax as nat == max_count_from(model, cols@, m as int, i as int));
        }
    }
    let ghost vmax_g = vmax as nat;
    let mut best: Option<(Vec<usize>, usize)> = None;
    let mut i2: usize = m;
    while i2 > 0
        invariant
            forall|k: int| 0 <= k < rows@.len() ==> (#[trigger] rows@[k])@.l.len() == m,
            cols@.len() < m,
            forall|k: int| 0 <= k < cols@.len() ==> (#[trigger] cols@[k]) < m,
            forall|k: int, j: int| 0 <= k < j < cols@.len() ==> cols@[k] != cols@[j],
            m * rows@.len() <= usize::MAX,
            model == seq_model(rows@),
            n == rows@.len(),
            i2 <= m,
            vmax_g == vmax as nat,
            vmax <= n,
            match best {
                Some(b) => {
                    &&& best_branch(cols@, model, m as int, i2 as int, vmax_g) matches Some(sb)
                    &&& sb.0 == b.0@
                    &&& sb.1 == b.1 as nat
                },
                None => best_branch(cols@, model, m as int, i2 as int, vmax_g) is None,
            },
        decreases i2,
    {
        i2 = i2 - 1;
        if !contains_val(&cols, i2) {
            let v = zero_count_exec(rows, &cols, i2);
            if v == vmax {
                let mut cols2 = copy_usizes(&cols);
                cols2.push(i2);
                proof {
                    assert forall|k: int, j: int| 0 <= k < j < cols2@.len() implies cols2@[k]
                        != cols2@[j] by {
                        if j == cols@.len() as int {
                            if cols@[k] == i2 {
                                assert(cols@.contains(i2));
                            }
                        }
                    }
                    lemma_best_search_props(cols2@, model, m as int);
                    lemma_zero_count_le(model, cols@, i2, n as int);
                    assert((m - cols2@.len()) * rows@.len() + vmax <= m * rows@.len())
                        by (nonlinear_arith)
                        requires
                            cols2@.len() >= 1,
                            vmax <= rows@.len(),
                            m >= cols2@.len(),
                    ;
                }
                let sub = search_cols(rows, cols2, m);
                let mine_n = sub.1 + vmax;
                let replace: bool = match &best {
                    Option::None => true,
                    Option::Some(b) => mine_n >= b.1,
                };
                if replace {
                    best = Some((sub.0, mine_n));
                }
            }
        }
        proof {
            match &best {
                Some(b) => {
                    assert(best_branch(cols@, model, m as int, i2 as int, vmax_g) matches Some(sb)
                        && sb.0 == b.0@ && sb.1 == b.1 as nat);
                },
                None => {
                    assert(best_branch(cols@, model, m as int, i2 as int, vmax_g) is None);
                },
            }
        }
    }
    match best {
        Some(b) => b,
        None => (cols, 0),
    }
}

/// The sort key used for the row order: in how many leading chosen columns
/// the row is zero.
fn row_key_exec(rows: &Vec<Row>, cols: &Vec<usize>, v: usize) -> (r: usize)
    requires
        v < rows@.len(),
        forall|i: int, j: int|
            0 <= i < rows@.len() && 0 <= j < cols@.len() ==> (#[trigger] cols@[j])
                < (#[trigger] rows@[i])@.l.len(),
    ensures
        r as int == row_key(seq_model(rows@), cols@, v),
        r <= cols@.len(),
    decreases cols@.len(),
{
    let ghost model = seq_model(rows@);
    let mut j: usize = 0;
    let mut stop: bool = false;
    while j < cols.len() && !stop
        invariant
            v < rows@.len(),
            forall|i: int, jj: int|
                0 <= i < rows@.len() && 0 <= jj < cols@.len() ==> (#[trigger] cols@[jj])
                    < (#[trigger] rows@[i])@.l.len(),
            model == seq_model(rows@),
            j <= cols@.len(),
            !stop ==> zero_prefix(model[v as int], cols@, 0) == zero_prefix(
                model[v as int],
                cols@,
                j as int,
            ),
            stop ==> zero_prefix(model[v as int], cols@, 0) == j as int,
        decreases cols@.len() - j, (if stop {
            0int
        } else {
            1int
        }),
    {
        if rows[v].left[cols[j]].numerator == 0 {
            proof {
                assert(model[v as int].l[cols@[j as int] as int].num() == 0);
                assert(zero_prefix(model[v as int], cols@, j as int) == zero_prefix(
                    model[v as int],
                    cols@,
                    j + 1,
                ));
            }
            j = j + 1;
        } else {
            proof {
                assert(model[v as int].l[cols@[j as int] as int].num() != 0);
                assert(zero_prefix(model[v as int], cols@, j as int) == j as int);
            }
            stop = true;
        }
    }
    j
}

/// Stable insertion sort of the row indices by ascending key.
fn sort_rows_exec(rows: &Vec<Row>, cols: &Vec<usize>) -> (r: Vec<usize>)
    requires
        forall|i: int, j: int|
            0 <= i < rows@.len() && 0 <= j < cols@.len() ==> (#[trigger] cols@[j])
                < (#[trigger] rows@[i])@.l.len(),
    ensures
        r@ == opt_rows_spec(seq_model(rows@), cols@),
{
    let ghost model = seq_model(rows@);
    let n = rows.len();
    let mut out: Vec<usize> = Vec::new();
    let mut i: usize = 0;
    while i < n
        invariant
            forall|k: int, j: int|
                0 <= k < rows@.len() && 0 <= j < cols@.len() ==> (#[trigger] cols@[j])
                    < (#[trigger] rows@[k])@.l.len(),
            model == seq_model(rows@),
            n == rows@.len(),
            i <= n,
            out@ == sorted_rows_upto(model, cols@, i as int),
            out@.len() == i,
            forall|k: int| 0 <= k < out@.len() ==> (#[trigger] out@[k]) < i,
        decreases n - i,
    {
        proof {
            lemma_sorted_rows_props(model, cols@, i as int);
        }
        let kv = row_key_exec(rows, cols, i);
        let mut p: usize = out.len();
        let mut stop: bool = false;
        while p > 0 && !stop
            invariant
                forall|k: int, j: int|
                    0 <= k < rows@.len() && 0 <= j < cols@.len() ==> (#[trigger] cols@[j])
                        < (#[trigger] rows@[k])@.l.len(),
                model == seq_model(rows@),
                i < n,
                n == rows@.len(),
                kv as int == row_key(model, cols@, i as usize),
                p <= out@.len(),
                forall|k: int| 0 <= k < out@.len() ==> (#[trigger] out@[k]) < i,
                forall|j: int|
                    p <= j < out@.len() ==> row_key(model, cols@, #[trigger] out@[j]) > kv as int,
                stop ==> p > 0 && row_key(model, cols@, out@[p - 1]) <= kv as int,
            decreases p, (if stop {
                0int
            } else {
                1int
            }),
        {
            let kp = row_key_exec(rows, cols, out[p - 1]);
            if kp <= kv {
                stop = true;
            } else {
                p = p - 1;
            }
        }
        proof {
            lemma_insert_sorted_at(out@, model, cols@, i as usize, p as int);
        }
        out.insert(p, i);
        proof {
            assert(out@ == sorted_rows_upto(model, cols@, i + 1));
            lemma_sorted_rows_props(model, cols@, i + 1);
            assert forall|k: int| 0 <= k < out@.len() implies (#[trigger] out@[k]) < i + 1 by {
                assert(out@.contains(out@[k]));
            }
        }
        i = i + 1;
    }
    out
}

/// The state machine itself: rows, the elimination state, and the two visit
/// orders chosen by the pivot optimizer.
#[derive(Debug)]
pub struct Matrix {
    pub rows: Vec<Row>,
    pub state: MatrixState,
    pub row_sequence: Vec<usize>,
    pub col_sequence: Vec<usize>,
}

/// The mathematical content of a sequence of rows.
pub open spec fn seq_model(rows: Seq<Row>) -> Seq<RowModel> {
    rows.map_values(|r: Row| r@)
}

impl View for Matrix {
    type V = MatrixModel;

    open spec fn view(&self) -> MatrixModel {
        MatrixModel {
            rows: seq_model(self.rows@),
            state: self.state,
            rs: self.row_sequence@,
            cs: self.col_sequence@,
        }
    }
}

impl Matrix {
    /// Whether the row at position `p` is dirty in an earlier pivot column.
    fn dirty_before_at(&self, p: usize) -> (r: bool)
        requires
            self@.wf(),
            p < self@.n(),
        ensures
            r == dirty_before(self@, p as int),
    {
        let ri = self.row_sequence[p];
        let mut j: usize = 0;
        while j < p
            invariant
                self@.wf(),
                p < self@.n(),
                ri == self@.rs[p as int],
                j <= p,
                forall|jj: int| 0 <= jj < j ==> (#[trigger] self@.cell(p as int, jj)).num() == 0,
            decreases p - j,
        {
            let c = self.col_sequence[j];
            proof {
                assert(self.rows@[ri as int]@ == self@.rows[ri as int]);
                assert(self@.rows[ri as int].l.len() == self@.width());
            }
            if self.rows[ri].left[c].numerator != 0 {
                proof {
                    assert(self@.cell(p as int, j as int).num() != 0);
                }
                return true;
            }
            proof {
                assert(self@.cell(p as int, j as int).num() == 0);
            }
            j = j + 1;
        }
        proof {
            assert(!dirty_before(self@, p as int));
        }
        false
    }

    /// Whether the row at position `p` is dirty in a later pivot column.
    fn dirty_after_at(&self, p: usize) -> (r: bool)
        requires
            self@.wf(),
            p < self@.n(),
        ensures
            r == dirty_after(self@, p as int),
    {
        let ri = self.row_sequence[p];
        let w = self.col_sequence.len();
        let mut j: usize = p + 1;
        while j < w
            invariant
                self@.wf(),
                p < self@.n(),
                ri == self@.rs[p as int],
                w == self@.width(),
                p < j <= w,
                forall|jj: int| p < jj < j ==> (#[trigger] self@.cell(p as int, jj)).num() == 0,
            decreases w - j,
        {
            let c = self.col_sequence[j];
            proof {
                assert(self.rows@[ri as int]@ == self@.rows[ri as int]);
                assert(self@.rows[ri as int].l.len() == self@.width());
            }
            if self.rows[ri].left[c].numerator != 0 {
                proof {
                    assert(self@.cell(p as int, j as int).num() != 0);
                }
                return true;
            }
            proof {
                assert(self@.cell(p as int, j as int).num() == 0);
            }
            j = j + 1;
        }
        proof {
            assert(!dirty_after(self@, p as int));
        }
        false
    }

    /// The reverse scan of the row order, from the last position down.
    fn reverse_scan(&self) -> (r: MatrixState)
        requires
            self@.wf(),
        ensures
            r == norm_scan(self@, self@.n() - 1),
            ({
                let s = MatrixModel { state: r, ..self@ };
                s.state_ok()
            }),
    {
        proof {
            lemma_norm_scan_ok(self@, self@.n() - 1);
        }
        let n = self.rows.len();
        let mut p: usize = n;
        while p > 0
            invariant
                self@.wf(),
                p <= n,
                n == self@.n(),
                norm_scan(self@, n - 1) == norm_scan(self@, p as int - 1),
            decreases p,
        {
            let q = p - 1;
            if self.dirty_after_at(q) {
                return MatrixState::ReInsertRow(q);
            }
            let ri = self.row_sequence[q];
            let c = self.col_sequence[q];
            proof {
                assert(self.rows@[ri as int]@ == self@.rows[ri as int]);
                assert(self@.rows[ri as int].l.len() == self@.width());
            }
            let cell = self.rows[ri].left[c];
            proof {
                assert(cell == self@.cell(q as int, q as int));
            }
            if !cell.is_one() {
                return MatrixState::NormalizeRow(q);
            }
            proof {
                assert(norm_scan(self@, q as int) == norm_scan(self@, q as int - 1));
            }
            p = q;
        }
        MatrixState::Done
    }

    /// Recompute the elimination state from the current zero pattern, as the
    /// scans of the current state dictate.  Rows and visit orders are left
    /// unchanged.
    pub fn update_state(&mut self)
        requires
            old(self)@.wf(),
        ensures
            final (self)@.rows == old(self)@.rows,
            final (self)@.rs == old(self)@.rs,
            final (self)@.cs == old(self)@.cs,
            final (self)@.state == next_state_spec(old(self)@),
            final (self)@.wf(),
    {
        match self.state {
            MatrixState::Done => {},
            MatrixState::Initial | MatrixState::Null(_) => {
                let n = self.rows.len();
                let mut p: usize = 0;
                let mut found: bool = false;
                while p < n && !found
                    invariant
                        self@.wf(),
                        n == self@.n(),
                        p <= n,
                        !found ==> forall|q: int| 0 <= q < p ==> !dirty_before(self@, q),
                        found ==> 0 < p < n && dirty_before(self@, p as int) && (forall|q: int|
                            0 <= q < p ==> !dirty_before(self@, q)),
                    decreases n - p, (if found { 0int } else { 1int }),
                {
                    if self.dirty_before_at(p) {
                        found = true;
                    } else {
                        p = p + 1;
                    }
                }
                if found {
                    proof {
                        lemma_null_scan_skip(self@, p as int);
                        assert(null_scan(self@, p as int) == MatrixState::Null((p - 1) as usize));
                        lemma_null_scan_ok(self@, 0);
                    }
                    self.state = MatrixState::Null(p - 1);
                } else {
                    proof {
                        lemma_null_scan_skip(self@, n as int);
                        assert(null_scan(self@, n as int) == norm_scan(self@, n as int - 1));
                    }
                    let s = self.reverse_scan();
                    self.state = s;
                }
            },
            MatrixState::NormalizeRow(_) | MatrixState::ReInsertRow(_) => {
                let s = self.reverse_scan();
                self.state = s;
            },
        }
    }
}

/// The identity visit order `0, 1, ..., n-1`.
fn identity_seq(n: usize) -> (r: Vec<usize>)
    ensures
        r@.len() == n,
        forall|i: int| 0 <= i < n ==> (#[trigger] r@[i]) == i,
        is_perm(r@, n as int),
{
    let mut out: Vec<usize> = Vec::new();
    let mut i: usize = 0;
    while i < n
        invariant
            i <= n,
            out@.len() == i,
            forall|j: int| 0 <= j < i ==> (#[trigger] out@[j]) == j,
        decreases n - i,
    {
        out.push(i);
        i = i + 1;
    }
    out
}

impl Matrix {
    /// Assemble a matrix over identity visit orders.
    fn assemble(rows: Vec<Row>, state: MatrixState) -> (r: Matrix)
        requires
            rows_ok(seq_model(rows@)),
            state_idx_ok(state, rows@.len() as int),
        ensures
            r@.rows == seq_model(rows@),
            r@.state == state,
            forall|i: int| 0 <= i < r@.rs.len() ==> (#[trigger] r@.rs[i]) == i,
            forall|i: int| 0 <= i < r@.cs.len() ==> (#[trigger] r@.cs[i]) == i,
            r@.wf(),
    {
        let n = rows.len();
        proof {
            assert(seq_model(rows@)[0] == rows@[0]@);
        }
        let w = rows[0].left.len();
        let rs = identity_seq(n);
        let cs = identity_seq(w);
        Matrix { rows, state, row_sequence: rs, col_sequence: cs }
    }

    /// The raw constructor: fields are taken exactly as given.
    pub fn new(
        rows: Vec<Row>,
        state: MatrixState,
        row_sequence: Vec<usize>,
        col_sequence: Vec<usize>,
    ) -> (r: Matrix)
        ensures
            r@.rows == seq_model(rows@),
            r@.state == state,
            r@.rs == row_sequence@,
            r@.cs == col_sequence@,
    {
        Matrix { rows, state, row_sequence, col_sequence }
    }

    /// A matrix over identity visit orders with the given state.
    pub fn new_with_state(rows: Vec<Row>, state: MatrixState) -> (r: Matrix)
        requires
            rows_ok(seq_model(rows@)),
            state_idx_ok(state, rows@.len() as int),
        ensures
            r@.rows == seq_model(rows@),
            r@.state == state,
            forall|i: int| 0 <= i < r@.rs.len() ==> (#[trigger] r@.rs[i]) == i,
            forall|i: int| 0 <= i < r@.cs.len() ==> (#[trigger] r@.cs[i]) == i,
            r@.wf(),
    {
        Self::assemble(rows, state)
    }

    /// Validate rows and build the starting matrix over identity visit
    /// orders.  A shape the solver cannot work on is a configuration error:
    /// no rows, ragged rows, a coefficient side narrower than the row count,
    /// no constant column, or a size beyond the machine bound.
    pub fn new_with_rows(rows: Vec<Row>) -> (r: Result<Matrix, SolveError>)
        requires
            forall|i: int| 0 <= i < rows@.len() ==> (#[trigger] rows@[i])@.wf(),
        ensures
            (r is Ok <==> rows_ok(seq_model(rows@))),
            r matches Err(e) ==> e == SolveError::Configuration,
            r matches Ok(mm) ==> ({
                &&& mm@.wf()
                &&& mm@.rows == seq_model(rows@)
                &&& mm@.state == (if rows@.len() == 1 {
                    MatrixState::NormalizeRow(0)
                } else {
                    MatrixState::Null(0)
                })
                &&& (forall|i: int| 0 <= i < mm@.rs.len() ==> (#[trigger] mm@.rs[i]) == i)
                &&& (forall|i: int| 0 <= i < mm@.cs.len() ==> (#[trigger] mm@.cs[i]) == i)
            }),
    {
        let ghost model = seq_model(rows@);
        let n = rows.len();
        if n == 0 {
            return Err(SolveError::Configuration);
        }
        let w = rows[0].left.len();
        let rw = rows[0].right.len();
        proof {
            assert(model[0] == rows@[0]@);
        }
        if w < n || rw == 0 {
            return Err(SolveError::Configuration);
        }
        if w > usize::MAX / n {
            proof {
                vstd::arithmetic::div_mod::lemma_fundamental_div_mod(usize::MAX as int, n as int);
                assert(w * n > usize::MAX) by (nonlinear_arith)
                    requires
                        w > usize::MAX as int / n as int,
                        usize::MAX as int == n as int * (usize::MAX as int / n as int) + (
                        usize::MAX as int % n as int),
                        0 <= usize::MAX as int % n as int,
                        (usize::MAX as int % n as int) < n as int,
                        n >= 1,
                ;
            }
            return Err(SolveError::Configuration);
        }
        proof {
            vstd::arithmetic::div_mod::lemma_fundamental_div_mod(usize::MAX as int, n as int);
            assert(w * n <= usize::MAX) by (nonlinear_arith)
                requires
                    w <= usize::MAX as int / n as int,
                    usize::MAX as int == n as int * (usize::MAX as int / n as int) + (usize::MAX
                        as int % n as int),
                    0 <= usize::MAX as int % n as int,
                    n >= 1,
            ;
        }
        let mut i: usize = 0;
        while i < n
            invariant
                model == seq_model(rows@),
                n == rows@.len(),
                i <= n,
                w == model[0].l.len(),
                rw == model[0].r.len(),
                forall|j: int| 0 <= j < i ==> (#[trigger] model[j]).l.len() == w && model[j].r.len()
                    == rw,
            decreases n - i,
        {
            proof {
                assert(model[i as int] == rows@[i as int]@);
            }
            if rows[i].left.len() != w || rows[i].right.len() != rw {
                return Err(SolveError::Configuration);
            }
            i = i + 1;
        }
        let state = if n == 1 {
            MatrixState::NormalizeRow(0)
        } else {
            MatrixState::Null(0)
        };
        proof {
            assert forall|j: int| 0 <= j < model.len() implies (#[trigger] model[j]).wf() by {
                assert(model[j] == rows@[j]@);
            }
            assert(rows_ok(model));
        }
        Ok(Self::assemble(rows, state))
    }

    /// Recompute both visit orders from the current zero pattern: choose the
    /// column order by the branching search, then sort the rows by how many
    /// leading chosen columns they are already zero in.
    pub fn optimize_indeces(&mut self)
        requires
            old(self)@.wf(),
        ensures
            final (self)@.rows == old(self)@.rows,
            final (self)@.state == old(self)@.state,
            final (self)@.cs == opt_cols_spec(old(self)@.rows, old(self)@.width()),
            final (self)@.rs == opt_rows_spec(old(self)@.rows, final (self)@.cs),
            final (self)@.wf(),
    {
        let ghost model = self@.rows;
        proof {
            assert(model[0] == self.rows@[0]@);
            assert forall|i: int| 0 <= i < self.rows@.len() implies (#[trigger] self.rows@[i])@.l.len()
                == self@.width() by {
                assert(self.rows@[i]@ == model[i]);
            }
        }
        let m = self.rows[0].left.len();
        let empty_cols: Vec<usize> = Vec::new();
        proof {
            lemma_best_search_props(Seq::<usize>::empty(), model, m as int);
        }
        let cols = search_cols(&self.rows, empty_cols, m).0;
        proof {
            assert(cols@ == opt_cols_spec(model, m as int));
            lemma_sorted_rows_props(model, cols@, model.len() as int);
            assert forall|i: int, j: int|
                0 <= i < self.rows@.len() && 0 <= j < cols@.len() implies (#[trigger] cols@[j])
                < (#[trigger] self.rows@[i])@.l.len() by {
                assert(self.rows@[i]@ == model[i]);
            }
        }
        let rs = sort_rows_exec(&self.rows, &cols);
        self.col_sequence = cols;
        self.row_sequence = rs;
    }

    /// The ordered rows.
    pub fn rows(&self) -> (r: &Vec<Row>)
        ensures
            seq_model(r@) == self@.rows,
    {
        &self.rows
    }

    /// The elimination state.
    pub fn state(&self) -> (r: &MatrixState)
        ensures
            *r == self@.state,
    {
        &self.state
    }

    /// The row visit order.
    pub fn row_sequence(&self) -> (r: &Vec<usize>)
        ensures
            r@ == self@.rs,
    {
        &self.row_sequence
    }

    /// The column visit order.
    pub fn col_sequence(&self) -> (r: &Vec<usize>)
        ensures
            r@ == self@.cs,
    {
        &self.col_sequence
    }
}

/// The rows after the forward-elimination step at position `k`, with the
/// positions `k+1..upto` already processed: each such row is replaced by
/// `row*pivot - pivotRow*row[pivotColumn]`, every operand read from the rows
/// as they were before the step.
pub open spec fn nulled_rows(m: MatrixModel, k: int, upto: int) -> Seq<RowModel>
    decreases upto,
{
    if upto <= 0 {
        m.rows
    } else {
        let prev = nulled_rows(m, k, upto - 1);
        let p = upto - 1;
        if p > k {
            let i = m.rs[p] as int;
            prev.update(
                i,
                crate::row::row_elim(
                    m.rows[i],
                    m.cell(k, k),
                    m.pos_row(k),
                    m.rows[i].l[m.cs[k] as int],
                ),
            )
        } else {
            prev
        }
    }
}

/// Every arithmetic step of the forward elimination at position `k` fits.
pub open spec fn null_fits(m: MatrixModel, k: int) -> bool {
    forall|p: int|
        k < p < m.n() ==> crate::row::row_elim_fits(
            m.rows[(#[trigger] m.rs[p]) as int],
            m.cell(k, k),
            m.pos_row(k),
            m.rows[m.rs[p] as int].l[m.cs[k] as int],
        )
}

/// Positions at or before `k` are untouched by the forward-elimination step.
proof fn lemma_nulled_prefix(m: MatrixModel, k: int, upto: int)
    requires
        upto <= k + 1,
    ensures
        nulled_rows(m, k, upto) == m.rows,
    decreases upto,
{
    if upto > 0 {
        lemma_nulled_prefix(m, k, upto - 1);
    }
}

/// The forward-elimination step at position `k`: fails on a zero pivot
/// (singular system) or on overflow; otherwise replaces the rows after `k`,
/// re-runs the pivot optimizer and recomputes the state.
pub open spec fn null_step(m: MatrixModel, k: int) -> Result<MatrixModel, SolveError> {
    if m.cell(k, k).num() == 0 {
        Err(SolveError::SingularSystem)
    } else if !null_fits(m, k) {
        Err(SolveError::ArithmeticOverflow)
    } else {
        let rows2 = nulled_rows(m, k, m.n());
        let inter: MatrixState = if k + 2 == m.n() {
            MatrixState::NormalizeRow((k + 1) as usize)
        } else {
            MatrixState::Null((k + 1) as usize)
        };
        let cs2 = opt_cols_spec(rows2, m.width());
        let rs2 = opt_rows_spec(rows2, cs2);
        let m2 = MatrixModel { rows: rows2, state: inter, rs: rs2, cs: cs2 };
        Ok(MatrixModel { state: next_state_spec(m2), ..m2 })
    }
}

/// The whole coefficient side of the row is zero.
pub open spec fn all_left_zero(r: RowModel) -> bool {
    forall|j: int| 0 <= j < r.l.len() ==> (#[trigger] r.l[j]).num() == 0
}

/// The normalization step at position `k`: fails when the pivot cell is zero
/// or any row's whole coefficient side is zero (singular system), or on
/// overflow; otherwise divides the row by its pivot cell and recomputes the
/// state.  Visit orders are kept.
pub open spec fn normalize_step(m: MatrixModel, k: int) -> Result<MatrixModel, SolveError> {
    let piv = m.cell(k, k);
    if piv.num() == 0 {
        Err(SolveError::SingularSystem)
    } else if exists|i: int| 0 <= i < m.n() && all_left_zero(#[trigger] m.rows[i]) {
        Err(SolveError::SingularSystem)
    } else if !crate::row::row_div_fits(m.pos_row(k), piv) {
        Err(SolveError::ArithmeticOverflow)
    } else {
        let rows2 = m.rows.update(m.rs[k] as int, crate::row::row_div(m.pos_row(k), piv));
        let m2 = MatrixModel { rows: rows2, ..m };
        Ok(MatrixModel { state: next_state_spec(m2), ..m2 })
    }
}

/// Back-substitution for the row at position `k`: eliminate, in turn, its
/// entry at each later pivot column against the (already normalized) row at
/// that position, by cross-multiplication.
pub open spec fn reinsert_fold(m: MatrixModel, row: RowModel, i: int) -> Result<
    RowModel,
    SolveError,
>
    decreases m.n() - 1 - i,
{
    if i >= m.n() - 1 {
        Ok(row)
    } else {
        let c1 = m.cell(i + 1, i + 1);
        let prow = m.pos_row(i + 1);
        let c2 = row.l[m.cs[i + 1] as int];
        if crate::row::row_elim_fits(row, c1, prow, c2) {
            reinsert_fold(m, crate::row::row_elim(row, c1, prow, c2), i + 1)
        } else {
            Err(SolveError::ArithmeticOverflow)
        }
    }
}

/// The back-substitution step at position `k`; fails only on overflow.
/// Visit orders are kept.
pub open spec fn reinsert_step(m: MatrixModel, k: int) -> Result<MatrixModel, SolveError> {
    match reinsert_fold(m, m.pos_row(k), k) {
        Ok(row) => {
            let rows2 = m.rows.update(m.rs[k] as int, row);
            let m2 = MatrixModel { rows: rows2, ..m };
            Ok(MatrixModel { state: next_state_spec(m2), ..m2 })
        },
        Err(e) => Err(e),
    }
}

/// The single stepping primitive of the machine: what `calculate_next`
/// returns for every state.
pub open spec fn step_spec(m: MatrixModel) -> Result<Option<MatrixModel>, SolveError> {
    match m.state {
        MatrixState::Initial => Ok(None),
        MatrixState::Null(k) => match null_step(m, k as int) {
            Ok(x) => Ok(Some(x)),
            Err(e) => Err(e),
        },
        MatrixState::NormalizeRow(k) => match normalize_step(m, k as int) {
            Ok(x) => Ok(Some(x)),
            Err(e) => Err(e),
        },
        MatrixState::ReInsertRow(k) => match reinsert_step(m, k as int) {
            Ok(x) => Ok(Some(x)),
            Err(e) => Err(e),
        },
        MatrixState::Done => Ok(None),
    }
}

impl Matrix {
    /// Copy the rows into a fresh vector.
    fn copy_rows(&self) -> (r: Vec<Row>)
        ensures
            seq_model(r@) == self@.rows,
            r@.len() == self.rows@.len(),
    {
        let mut out: Vec<Row> = Vec::new();
        let mut i: usize = 0;
        while i < self.rows.len()
            invariant
                i <= self.rows@.len(),
                out@.len() == i,
                forall|j: int| 0 <= j < i ==> (#[trigger] out@[j])@ == self.rows@[j]@,
            decreases self.rows@.len() - i,
        {
            out.push(self.rows[i].clone());
            i = i + 1;
        }
        proof {
            assert(seq_model(out@) =~= seq_model(self.rows@));
        }
        out
    }

    /// The forward-elimination step, as `null_step` describes it.
    fn null_row(&self, k: usize) -> (r: Result<Matrix, SolveError>)
        requires
            self@.wf(),
            k + 2 <= self@.n(),
        ensures
            match r {
                Ok(mm) => (null_step(self@, k as int) matches Ok(x) && mm@ == x && mm@.wf()),
                Err(e) => (null_step(self@, k as int) matches Err(e2) && e == e2),
            },
    {
        let ghost m = self@;
        let n = self.rows.len();
        let rk = self.row_sequence[k];
        let ck = self.col_sequence[k];
        proof {
            assert(self.rows@[rk as int]@ == m.rows[rk as int]);
            assert(m.rows[rk as int].l.len() == m.width());
        }
        let pivot = self.rows[rk].left[ck];
        proof {
            assert(pivot == m.cell(k as int, k as int));
        }
        if pivot.numerator == 0 {
            return Err(SolveError::SingularSystem);
        }
        let mut out = self.copy_rows();
        proof {
            lemma_nulled_prefix(m, k as int, k as int + 1);
            assert forall|j: int| 0 <= j < n implies (#[trigger] out@[j])@.wf() && out@[j]@.l.len()
                == m.width() && out@[j]@.r.len() == m.rwidth() by {
                assert(out@[j]@ == seq_model(out@)[j]);
                assert(seq_model(out@)[j] == m.rows[j]);
            }
        }
        let mut pos: usize = k + 1;
        while pos < n
            invariant
                m == self@,
                self@.wf(),
                k + 2 <= n,
                n == m.n(),
                k + 1 <= pos <= n,
                pivot == m.cell(k as int, k as int),
                pivot.numerator != 0,
                rk == m.rs[k as int],
                ck == m.cs[k as int],
                out@.len() == n,
                seq_model(out@) == nulled_rows(m, k as int, pos as int),
                forall|j: int| 0 <= j < n ==> (#[trigger] out@[j])@.wf() && out@[j]@.l.len()
                    == m.width() && out@[j]@.r.len() == m.rwidth(),
                forall|p: int|
                    k < p < pos ==> crate::row::row_elim_fits(
                        m.rows[(#[trigger] m.rs[p]) as int],
                        m.cell(k as int, k as int),
                        m.pos_row(k as int),
                        m.rows[m.rs[p] as int].l[m.cs[k as int] as int],
                    ),
            decreases n - pos,
        {
            let i2 = self.row_sequence[pos];
            proof {
                assert(self.rows@[i2 as int]@ == m.rows[i2 as int]);
                assert(m.rows[i2 as int].l.len() == m.width());
                assert(i2 != rk) by {
                    assert(m.rs[k as int] != m.rs[pos as int]);
                }
            }
            let factor = self.rows[i2].left[ck];
            proof {
                assert(factor == m.rows[i2 as int].l[m.cs[k as int] as int]);
                assert(i2 == m.rs[pos as int]);
                assert(m.rows[rk as int] == m.pos_row(k as int));
            }
            match self.rows[i2].elim(pivot, &self.rows[rk], factor) {
                Ok(newr) => {
                    out[i2] = newr;
                    proof {
                        assert(seq_model(out@) =~= nulled_rows(m, k as int, pos + 1));
                    }
                },
                Err(e) => {
                    proof {
                        assert(!null_fits(m, k as int));
                    }
                    return Err(e);
                },
            }
            pos = pos + 1;
        }
        proof {
            assert(null_fits(m, k as int));
        }
        let inter = if k + 2 == n {
            MatrixState::NormalizeRow(k + 1)
        } else {
            MatrixState::Null(k + 1)
        };
        let rs = copy_usizes(&self.row_sequence);
        let cs = copy_usizes(&self.col_sequence);
        let mut result = Matrix { rows: out, state: inter, row_sequence: rs, col_sequence: cs };
        proof {
            assert(result@.rows == nulled_rows(m, k as int, n as int));
            assert(result@.width() == m.width()) by {
                assert(result@.rows[0].l.len() == m.width());
            }
            assert(result@.wf());
        }
        result.optimize_indeces();
        result.update_state();
        Ok(result)
    }

    /// The normalization step, as `normalize_step` describes it.
    fn normalize_row(&self, k: usize) -> (r: Result<Matrix, SolveError>)
        requires
            self@.wf(),
            k < self@.n(),
        ensures
            match r {
                Ok(mm) => (normalize_step(self@, k as int) matches Ok(x) && mm@ == x && mm@.wf()),
                Err(e) => (normalize_step(self@, k as int) matches Err(e2) && e == e2),
            },
    {
        let ghost m = self@;
        let n = self.rows.len();
        let rk = self.row_sequence[k];
        let ck = self.col_sequence[k];
        proof {
            assert(self.rows@[rk as int]@ == m.rows[rk as int]);
            assert(m.rows[rk as int].l.len() == m.width());
        }
        let factor = self.rows[rk].left[ck];
        proof {
            assert(factor == m.cell(k as int, k as int));
        }
        if factor.numerator == 0 {
            return Err(SolveError::SingularSystem);
        }
        let w = self.col_sequence.len();
        let mut i: usize = 0;
        while i < n
            invariant
                m == self@,
                self@.wf(),
                n == m.n(),
                w == m.width(),
                i <= n,
                forall|j: int| 0 <= j < i ==> !all_left_zero(#[trigger] m.rows[j]),
            decreases n - i,
        {
            proof {
                assert(self.rows@[i as int]@ == m.rows[i as int]);
                assert(m.rows[i as int].l.len() == m.width());
            }
            let mut j: usize = 0;
            let mut nonzero: bool = false;
            while j < w && !nonzero
                invariant
                    m == self@,
                    self@.wf(),
                    i < n,
                    n == m.n(),
                    w == m.width(),
                    j <= w,
                    m.rows[i as int].l.len() == w,
                    self.rows@[i as int]@ == m.rows[i as int],
                    !nonzero ==> forall|jj: int|
                        0 <= jj < j ==> (#[trigger] m.rows[i as int].l[jj]).num() == 0,
                    nonzero ==> !all_left_zero(m.rows[i as int]),
                decreases w - j, (if nonzero {
                    0int
                } else {
                    1int
                }),
            {
                if self.rows[i].left[j].numerator != 0 {
                    proof {
                        assert(m.rows[i as int].l[j as int].num() != 0);
                    }
                    nonzero = true;
                } else {
                    proof {
                        assert(m.rows[i as int].l[j as int].num() == 0);
                    }
                    j = j + 1;
                }
            }
            if !nonzero {
                proof {
                    assert(all_left_zero(m.rows[i as int]));
                }
                return Err(SolveError::SingularSystem);
            }
            i = i + 1;
        }
        proof {
            assert(!(exists|ii: int| 0 <= ii < m.n() && all_left_zero(#[trigger] m.rows[ii])));
        }
        let newr = match self.rows[rk].div_by(factor) {
            Ok(x) => x,
            Err(e) => {
                return Err(e);
            },
        };
        let mut out = self.copy_rows();
        out[rk] = newr;
        proof {
            assert(seq_model(out@) =~= m.rows.update(
                m.rs[k as int] as int,
                crate::row::row_div(m.pos_row(k as int), factor),
            ));
        }
        let rs = copy_usizes(&self.row_sequence);
        let cs = copy_usizes(&self.col_sequence);
        let mut result = Matrix { rows: out, state: self.state, row_sequence: rs, col_sequence: cs };
        proof {
            assert(result@.width() == m.width()) by {
                if m.rs[k as int] == 0 {
                    assert(result@.rows[0].l.len() == m.width());
                } else {
                    assert(result@.rows[0] == m.rows[0]);
                }
            }
            assert(result@.wf());
        }
        result.update_state();
        Ok(result)
    }

    /// The back-substitution step, as `reinsert_step` describes it.
    fn reinsert_row(&self, k: usize) -> (r: Result<Matrix, SolveError>)
        requires
            self@.wf(),
            k < self@.n(),
        ensures
            match r {
                Ok(mm) => (reinsert_step(self@, k as int) matches Ok(x) && mm@ == x && mm@.wf()),
                Err(e) => (reinsert_step(self@, k as int) matches Err(e2) && e == e2),
            },
    {
        let ghost m = self@;
        let n = self.rows.len();
        let rk = self.row_sequence[k];
        proof {
            assert(self.rows@[rk as int]@ == m.rows[rk as int]);
        }
        let mut row = self.rows[rk].clone();
        let mut i: usize = k;
        while i < n - 1
            invariant
                m == self@,
                self@.wf(),
                k < n,
                n == m.n(),
                k <= i <= n - 1,
                rk == m.rs[k as int],
                row@.wf(),
                row@.l.len() == m.width(),
                row@.r.len() == m.rwidth(),
                reinsert_fold(m, row@, i as int) == reinsert_fold(m, m.pos_row(k as int), k as int),
            decreases n - 1 - i,
        {
            let ri1 = self.row_sequence[i + 1];
            let ci1 = self.col_sequence[i + 1];
            proof {
                assert(self.rows@[ri1 as int]@ == m.rows[ri1 as int]);
                assert(m.rows[ri1 as int].l.len() == m.width());
            }
            let c1 = self.rows[ri1].left[ci1];
            let c2 = row.left[ci1];
            proof {
                assert(c1 == m.cell(i + 1, i + 1));
                assert(c2 == row@.l[m.cs[i + 1] as int]);
            }
            match row.elim(c1, &self.rows[ri1], c2) {
                Ok(nr) => {
                    row = nr;
                },
                Err(e) => {
                    return Err(e);
                },
            }
            i = i + 1;
        }
        let mut out = self.copy_rows();
        out[rk] = row;
        proof {
            assert(reinsert_fold(m, m.pos_row(k as int), k as int) matches Ok(x) && x == out@[rk as int]@);
            assert(seq_model(out@) =~= m.rows.update(m.rs[k as int] as int, out@[rk as int]@));
        }
        let rs = copy_usizes(&self.row_sequence);
        let cs = copy_usizes(&self.col_sequence);
        let mut result = Matrix { rows: out, state: self.state, row_sequence: rs, col_sequence: cs };
        proof {
            assert(result@.width() == m.width()) by {
                if m.rs[k as int] == 0 {
                    assert(result@.rows[0].l.len() == m.width());
                } else {
                    assert(result@.rows[0] == m.rows[0]);
                }
            }
            assert(result@.wf());
        }
        result.update_state();
        Ok(result)
    }

    /// The single stepping primitive: the next matrix, a failure signal for a
    /// singular system or overflow, or nothing when already `Done`.
    pub fn calculate_next(&self) -> (r: Result<Option<Matrix>, SolveError>)
        requires
            self@.wf(),
            !(self@.state is Initial),
        ensures
            match r {
                Ok(Some(mm)) => (step_spec(self@) matches Ok(Some(x)) && mm@ == x && mm@.wf()),
                Ok(None) => (step_spec(self@) matches Ok(o) && o is None),
                Err(e) => (step_spec(self@) matches Err(e2) && e == e2),
            },
    {
        match self.state {
            MatrixState::Initial => Ok(None),
            MatrixState::Null(s) => match self.null_row(s) {
                Ok(mm) => Ok(Some(mm)),
                Err(e) => Err(e),
            },
            MatrixState::NormalizeRow(s) => match self.normalize_row(s) {
                Ok(mm) => Ok(Some(mm)),
                Err(e) => Err(e),
            },
            MatrixState::ReInsertRow(s) => match self.reinsert_row(s) {
                Ok(mm) => Ok(Some(mm)),
                Err(e) => Err(e),
            },
            MatrixState::Done => Ok(None),
        }
    }
}

/// Copy a fixed-size coefficient array into a vector.
fn array_to_vec<const N: usize>(a: &[Fraction; N]) -> (r: Vec<Fraction>)
    ensures
        r@ == a@,
{
    let mut out: Vec<Fraction> = Vec::new();
    let mut i: usize = 0;
    while i < N
        invariant
            i <= N,
            a@.len() == N,
            out@ == a@.subrange(0, i as int),
        decreases N - i,
    {
        out.push(a[i]);
        proof {
            assert(out@ =~= a@.subrange(0, i + 1));
        }
        i = i + 1;
    }
    proof {
        assert(out@ =~= a@);
    }
    out
}

impl Matrix {
    /// Build a square system from a coefficient array and a constant-column
    /// array, and choose the visit orders with the pivot optimizer.
    pub fn create<const N: usize, const M: usize>(
        left: [[Fraction; N]; N],
        right: [[Fraction; M]; N],
    ) -> (r: Matrix)
        requires
            N >= 1,
            M >= 1,
            N * N <= usize::MAX,
            forall|i: int, j: int|
                0 <= i < N && 0 <= j < N ==> (#[trigger] left@[i]@[j]).wf(),
            forall|i: int, j: int|
                0 <= i < N && 0 <= j < M ==> (#[trigger] right@[i]@[j]).wf(),
        ensures
            r@.wf(),
            r@.rows.len() == N,
            forall|i: int|
                0 <= i < N ==> (#[trigger] r@.rows[i]).l == left@[i]@ && r@.rows[i].r
                    == right@[i]@,
            r@.cs == opt_cols_spec(r@.rows, N as int),
            r@.rs == opt_rows_spec(r@.rows, r@.cs),
            r@.state == (if N == 1 {
                MatrixState::NormalizeRow(0)
            } else {
                MatrixState::Null(0)
            }),
    {
        let mut rows: Vec<Row> = Vec::new();
        let mut i: usize = 0;
        while i < N
            invariant
                i <= N,
                left@.len() == N,
                right@.len() == N,
                forall|k: int, j: int|
                    0 <= k < N && 0 <= j < N ==> (#[trigger] left@[k]@[j]).wf(),
                forall|k: int, j: int|
                    0 <= k < N && 0 <= j < M ==> (#[trigger] right@[k]@[j]).wf(),
                rows@.len() == i,
                forall|k: int|
                    0 <= k < i ==> (#[trigger] rows@[k])@.l == left@[k]@ && rows@[k]@.r
                        == right@[k]@,
            decreases N - i,
        {
            let l = array_to_vec(&left[i]);
            let rr = array_to_vec(&right[i]);
            rows.push(Row::new(l, rr));
            i = i + 1;
        }
        proof {
            let model = seq_model(rows@);
            assert forall|k: int| 0 <= k < N implies (#[trigger] model[k]).wf() && model[k].l.len()
                == N && model[k].r.len() == M by {
                assert(model[k] == rows@[k]@);
                assert(model[k].l == left@[k]@ && model[k].r == right@[k]@);
                assert forall|j: int| 0 <= j < model[k].l.len() implies (
                #[trigger] model[k].l[j]).wf() by {
                    assert(model[k].l[j] == left@[k]@[j]);
                }
                assert forall|j: int| 0 <= j < model[k].r.len() implies (
                #[trigger] model[k].r[j]).wf() by {
                    assert(model[k].r[j] == right@[k]@[j]);
                }
            }
            assert(rows_ok(model));
        }
        let state = if N == 1 {
            MatrixState::NormalizeRow(0)
        } else {
            MatrixState::Null(0)
        };
        let mut r = Self::assemble(rows, state);
        r.optimize_indeces();
        r
    }
}

/// A back-substitution fold can fail only with an overflow report.
pub proof fn lemma_reinsert_fold_err(m: MatrixModel, row: RowModel, i: int)
    ensures
        reinsert_fold(m, row, i) matches Err(e) ==> e == SolveError::ArithmeticOverflow,
    decreases m.n() - 1 - i,
{
    if i < m.n() - 1 {
        let c1 = m.cell(i + 1, i + 1);
        let prow = m.pos_row(i + 1);
        let c2 = row.l[m.cs[i + 1] as int];
        if crate::row::row_elim_fits(row, c1, prow, c2) {
            lemma_reinsert_fold_err(m, crate::row::row_elim(row, c1, prow, c2), i + 1);
        }
    }
}

/// A step can fail only by reporting a singular system or an overflow.
pub proof fn lemma_step_err_kinds(m: MatrixModel)
    ensures
        step_spec(m) matches Err(e) ==> (e == SolveError::SingularSystem || e
            == SolveError::ArithmeticOverflow),
{
    match m.state {
        MatrixState::ReInsertRow(k) => {
            lemma_reinsert_fold_err(m, m.pos_row(k as int), k as int);
        },
        _ => {},
    }
}

/// The forward scan never yields the initial state.
proof fn lemma_null_scan_not_initial(m: MatrixModel, p: int)
    ensures
        !(null_scan(m, p) is Initial),
    decreases m.n() - p, 1int,
{
    if p < 0 || p >= m.n() {
        lemma_norm_scan_not_initial(m, m.n() - 1);
    } else if !dirty_before(m, p) {
        lemma_null_scan_not_initial(m, p + 1);
    }
}

/// The reverse scan never yields the initial state.
proof fn lemma_norm_scan_not_initial(m: MatrixModel, p: int)
    ensures
        !(norm_scan(m, p) is Initial),
    decreases p + 1, 0int,
{
    if p >= 0 && !dirty_after(m, p) && m.cell(p, p).num() == m.cell(p, p).den() {
        lemma_norm_scan_not_initial(m, p - 1);
    }
}

/// A successful step never hands back the initial state.
pub proof fn lemma_step_not_initial(m: MatrixModel)
    ensures
        step_spec(m) matches Ok(Some(x2)) ==> !(x2.state is Initial),
{
    match step_spec(m) {
        Ok(o) => match o {
            Some(x2) => {
                match m.state {
                    MatrixState::Null(k) => {
                        let rows2 = nulled_rows(m, k as int, m.n());
                        let inter: MatrixState = if k + 2 == m.n() {
                            MatrixState::NormalizeRow((k + 1) as usize)
                        } else {
                            MatrixState::Null((k + 1) as usize)
                        };
                        let cs2 = opt_cols_spec(rows2, m.width());
                        let rs2 = opt_rows_spec(rows2, cs2);
                        let m2 = MatrixModel { rows: rows2, state: inter, rs: rs2, cs: cs2 };
                        lemma_null_scan_not_initial(m2, 0);
                        lemma_norm_scan_not_initial(m2, m2.n() - 1);
                        assert(!(next_state_spec(m2) is Initial));
                        assert(x2.state == next_state_spec(m2));
                    },
                    MatrixState::NormalizeRow(k) => {
                        let piv = m.cell(k as int, k as int);
                        let rows2 = m.rows.update(
                            m.rs[k as int] as int,
                            crate::row::row_div(m.pos_row(k as int), piv),
                        );
                        let m2 = MatrixModel { rows: rows2, ..m };
                        lemma_norm_scan_not_initial(m2, m2.n() - 1);
                        assert(!(next_state_spec(m2) is Initial));
                        assert(x2.state == next_state_spec(m2));
                    },
                    MatrixState::ReInsertRow(k) => {
                        match reinsert_fold(m, m.pos_row(k as int), k as int) {
                            Ok(row) => {
                                let rows2 = m.rows.update(m.rs[k as int] as int, row);
                                let m2 = MatrixModel { rows: rows2, ..m };
                                lemma_norm_scan_not_initial(m2, m2.n() - 1);
                                assert(!(next_state_spec(m2) is Initial));
                                assert(x2.state == next_state_spec(m2));
                            },
                            Err(_) => {},
                        }
                    },
                    _ => {},
                }
            },
            None => {},
        },
        Err(_) => {},
    }
}

impl Clone for Matrix {
    /// Copies the matrix; the copy has the same mathematical content.
    fn clone(&self) -> (r: Matrix)
        ensures
            r@ == self@,
    {
        Matrix {
            rows: self.copy_rows(),
            state: self.state,
            row_sequence: copy_usizes(&self.row_sequence),
            col_sequence: copy_usizes(&self.col_sequence),
        }
    }
}

/// The exact meaning of the executable `==` on matrices: the same number of
/// rows, entrywise equal in rational value; visit orders and state are not
/// compared.
pub open spec fn matrix_eq_exec(a: MatrixModel, b: MatrixModel) -> bool {
    &&& a.rows.len() == b.rows.len()
    &&& forall|i: int| 0 <= i < a.rows.len() ==> crate::row::row_eq_exec(
        #[trigger] a.rows[i],
        b.rows[i],
    )
}

impl PartialEq for Matrix {
    fn eq(&self, other: &Matrix) -> (r: bool) {
        if self.rows.len() != other.rows.len() {
            return false;
        }
        let mut i: usize = 0;
        while i < self.rows.len()
            invariant
                self@.rows.len() == other@.rows.len(),
                i <= self@.rows.len(),
                forall|j: int| 0 <= j < i ==> crate::row::row_eq_exec(
                    #[trigger] self@.rows[j],
                    other@.rows[j],
                ),
            decreases self@.rows.len() - i,
        {
            proof {
                assert(self@.rows[i as int] == self.rows@[i as int]@);
                assert(other@.rows[i as int] == other.rows@[i as int]@);
            }
            if !(self.rows[i] == other.rows[i]) {
                return false;
            }
            i = i + 1;
        }
        true
    }
}

impl vstd::std_specs::cmp::PartialEqSpecImpl for Matrix {
    open spec fn obeys_eq_spec() -> bool {
        true
    }

    open spec fn eq_spec(&self, other: &Matrix) -> bool {
        matrix_eq_exec(self@, other@)
    }
}

} // verus!
