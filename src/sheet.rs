//! The sparse sheet: columns of cells kept in ascending row order.
use vstd::prelude::*;
use vstd::string::*;

use crate::address::{
    column_index, is_label, is_upper, label_fits, label_numeral, lemma_label_numeral_grows,
    valid_loc,
};
use crate::dtypes::{
    link_model, opt_val_model, Cell, CellLoc, CellVal, FormToken, LocModel, NumModel, Number,
    TknLink, TknNode, TokenModel, TreeModel, ValModel,
};
use crate::formulas::{leaf, TknTree};
use crate::parsing::{formula_tree, parse_formula_expr, AddressSyntaxError};
use crate::text::is_upper_char;

verus! {

/// Rows strictly ascend along the column.
pub open spec fn rows_ascend(cells: Seq<Cell>) -> bool {
    forall|i: int, j: int| 0 <= i < j < cells.len() ==> cells[i].loc.row < cells[j].loc.row
}

/// A cell that can stand in column `c` of a sheet whose row count is `n_rows`.
pub open spec fn cell_ok(cell: Cell, c: int, n_rows: usize) -> bool {
    &&& valid_loc(cell.loc@)
    &&& column_index(cell.loc.col@) == c
    &&& cell.loc.row <= n_rows
}

/// A column that can stand at index `c` of a sheet whose row count is `n_rows`.
pub open spec fn column_ok(cells: Seq<Cell>, c: int, n_rows: usize) -> bool {
    &&& rows_ascend(cells)
    &&& forall|i: int| 0 <= i < cells.len() ==> cell_ok(#[trigger] cells[i], c, n_rows)
}

/// The value stored at `row` in a column, if any.
pub open spec fn value_at(cells: Seq<Cell>, row: usize) -> Option<ValModel> {
    if exists|j: int| 0 <= j < cells.len() && cells[j].loc.row == row {
        let j = choose|j: int| 0 <= j < cells.len() && cells[j].loc.row == row;
        Some(cells[j].val@)
    } else {
        None
    }
}

pub proof fn lemma_value_at(cells: Seq<Cell>, j: int)
    requires
        rows_ascend(cells),
        0 <= j < cells.len(),
    ensures
        value_at(cells, cells[j].loc.row) == Some(cells[j].val@),
{
    let row = cells[j].loc.row;
    let k = choose|k: int| 0 <= k < cells.len() && cells[k].loc.row == row;
    assert(k == j);
}

/// The number of columns left once trailing empty columns are dropped.
pub open spec fn trimmed_len(cols: Seq<Seq<Cell>>) -> nat
    decreases cols.len(),
{
    if cols.len() == 0 {
        0
    } else if cols.last().len() == 0 {
        trimmed_len(cols.drop_last())
    } else {
        cols.len()
    }
}

/// The greatest row in a column, 0 where it is empty.
pub open spec fn max_row_in(cells: Seq<Cell>) -> nat
    decreases cells.len(),
{
    if cells.len() == 0 {
        0
    } else {
        let m = max_row_in(cells.drop_last());
        if cells.last().loc.row > m {
            cells.last().loc.row as nat
        } else {
            m
        }
    }
}

/// The greatest row in any column, 0 where there are no cells.
pub open spec fn max_row(cols: Seq<Seq<Cell>>) -> nat
    decreases cols.len(),
{
    if cols.len() == 0 {
        0
    } else {
        let m = max_row(cols.drop_last());
        if max_row_in(cols.last()) > m {
            max_row_in(cols.last())
        } else {
            m
        }
    }
}

proof fn lemma_max_row_in_bound(cells: Seq<Cell>, i: int)
    requires
        0 <= i < cells.len(),
    ensures
        cells[i].loc.row <= max_row_in(cells),
        max_row_in(cells) <= usize::MAX,
    decreases cells.len(),
{
    let d = cells.drop_last();
    if d.len() > 0 {
        lemma_max_row_in_bound(d, if i < d.len() {
            i
        } else {
            0
        });
    }
    if i < d.len() {
        assert(d[i] == cells[i]);
    }
    if d.len() == 0 {
        assert(max_row_in(d) == 0);
    }
    assert(cells.last().loc.row <= usize::MAX);
}

proof fn lemma_max_row_bound(cols: Seq<Seq<Cell>>, c: int, i: int)
    requires
        0 <= c < cols.len(),
        0 <= i < cols[c].len(),
    ensures
        cols[c][i].loc.row <= max_row(cols),
    decreases cols.len(),
{
    if c < cols.len() - 1 {
        lemma_max_row_bound(cols.drop_last(), c, i);
    } else {
        lemma_max_row_in_bound(cols[c], i);
    }
}

/// What writing `val` at `loc` does: the sheet stays well formed, columns
/// are added up to the address's column, the row count rises to the row
/// where that is greater, the address holds `val` and every other address
/// what it held. The written column gains a cell where the row was empty and
/// keeps its length where it replaced one; other columns are unchanged, and
/// the added ones are empty.
pub open spec fn write_effect(before: Sheet, after: Sheet, loc: LocModel, val: ValModel) -> bool {
    let idx = column_index(loc.col);
    &&& after.wf()
    &&& after.n_cols == if idx < before.n_cols {
        before.n_cols as int
    } else {
        idx + 1
    }
    &&& after.n_rows == if loc.row > before.n_rows {
        loc.row
    } else {
        before.n_rows
    }
    &&& forall|c: int, r: usize|
        after.get(c, r) == if c == idx && r == loc.row {
            Some(val)
        } else {
            before.get(c, r)
        }
    &&& after.columns()[idx].len() == (if idx < before.columns().len() {
        before.columns()[idx].len() as int
    } else {
        0
    }) + if before.get(idx, loc.row) is Some {
        0int
    } else {
        1int
    }
    &&& forall|c: int|
        0 <= c < after.columns().len() && c != idx ==> (if c < before.columns().len() {
            #[trigger] after.columns()[c] == before.columns()[c]
        } else {
            after.columns()[c].len() == 0
        })
}

/// What deleting at `loc` does, given whether a cell was removed: a cell is
/// removed exactly where the address holds a value. Where none is, the sheet
/// is unchanged. Where one is, the address's column loses just the cell of
/// the address's row and every other column stays as it was. The sheet stays
/// well formed and the column and row counts never change.
pub open spec fn delete_effect(before: Sheet, after: Sheet, loc: LocModel, removed: bool) -> bool {
    let idx = column_index(loc.col);
    &&& after.wf()
    &&& removed == before.read(loc) is Some
    &&& after.n_cols == before.n_cols
    &&& after.n_rows == before.n_rows
    &&& !removed ==> after == before
    &&& removed ==> exists|j: int|
        0 <= j < before.columns()[idx].len() && before.columns()[idx][j].loc.row == loc.row
            && after.columns() == before.columns().update(idx, before.columns()[idx].remove(j))
}

/// A sheet: a sequence of columns and the column and row counts.
#[derive(Debug)]
pub struct Sheet {
    /// The columns, each in ascending row order.
    pub cols: Vec<Vec<Cell>>,
    /// The number of columns.
    pub n_cols: usize,
    /// High-water mark of the rows written.
    pub n_rows: usize,
}

impl Sheet {
    /// The columns, each a sequence of cells.
    pub open spec fn columns(&self) -> Seq<Seq<Cell>> {
        self.cols@.map_values(|c: Vec<Cell>| c@)
    }

    /// The column count matches the columns, and each column is well formed.
    pub open spec fn wf(&self) -> bool {
        &&& self.n_cols == self.columns().len()
        &&& forall|c: int|
            0 <= c < self.columns().len() ==> column_ok(#[trigger] self.columns()[c], c, self.n_rows)
    }

    /// The value at column index `c` and row `row`, if a cell holds one.
    pub open spec fn get(&self, c: int, row: usize) -> Option<ValModel> {
        if 0 <= c < self.columns().len() {
            value_at(self.columns()[c], row)
        } else {
            None
        }
    }

    /// The value at an address, if a cell holds one.
    pub open spec fn read(&self, loc: LocModel) -> Option<ValModel> {
        if label_fits(loc.col) {
            self.get(column_index(loc.col), loc.row)
        } else {
            None
        }
    }

    /// A tree with each cell reference replaced by the number that the cell
    /// holds. `None` where a subtree is missing, or a reference names an
    /// empty cell or one that holds no number: a formula cell is not
    /// evaluated in turn.
    pub open spec fn resolve(&self, t: TreeModel) -> Option<TreeModel>
        decreases t,
    {
        match t {
            TreeModel::Empty => None,
            TreeModel::Node(tok, l, r) => match tok {
                TokenModel::Num(n) => Some(leaf(TokenModel::Num(n))),
                TokenModel::Loc(loc) => match self.read(loc) {
                    Some(ValModel::Int(v)) => Some(leaf(TokenModel::Num(NumModel::Int(v)))),
                    Some(ValModel::Real(b)) => Some(leaf(TokenModel::Num(NumModel::Real(b)))),
                    _ => None,
                },
                TokenModel::BinOp(op) => match (self.resolve(*l), self.resolve(*r)) {
                    (Some(lv), Some(rv)) => Some(
                        TreeModel::Node(TokenModel::BinOp(op), Box::new(lv), Box::new(rv)),
                    ),
                    _ => None,
                },
            },
        }
    }

    /// What a cell value reduces to before floating-point arithmetic: the
    /// resolved tree of a well-formed formula, `None` for anything else.
    pub open spec fn formula_terms(&self, v: ValModel) -> Option<TreeModel> {
        match formula_tree(v) {
            Some(t) => self.resolve(t),
            None => None,
        }
    }

    /// An empty sheet.
    pub fn new() -> (r: Sheet)
        ensures
            r.wf(),
            r.columns().len() == 0,
            r.n_cols == 0,
            r.n_rows == 0,
    {
        let cols: Vec<Vec<Cell>> = Vec::new();
        let r = Sheet { cols, n_cols: 0, n_rows: 0 };
        assert(r.columns() =~= Seq::empty());
        r
    }

    /// An empty sheet of `n_cols` empty columns and row count `n_rows`, as the
    /// first line of a saved sheet gives them.
    pub fn with_dimensions(n_cols: usize, n_rows: usize) -> (r: Sheet)
        ensures
            r.wf(),
            r.n_cols == n_cols,
            r.n_rows == n_rows,
            forall|c: int| 0 <= c < r.columns().len() ==> (#[trigger] r.columns()[c]).len() == 0,
    {
        let mut sheet = Sheet::new();
        sheet.n_rows = n_rows;
        while sheet.cols.len() < n_cols
            invariant
                sheet.wf(),
                sheet.n_rows == n_rows,
                sheet.n_cols <= n_cols,
                forall|c: int|
                    0 <= c < sheet.columns().len() ==> (#[trigger] sheet.columns()[c]).len() == 0,
            decreases n_cols - sheet.n_cols,
        {
            let ghost before = sheet.columns();
            sheet.add_col();
            assert forall|c: int| 0 <= c < sheet.columns().len() implies (
            #[trigger] sheet.columns()[c]).len() == 0 by {
                if c < before.len() {
                    assert(sheet.columns()[c] == before[c]);
                }
            }
        }
        sheet
    }

    /// The zero-based index of a column label (A is 0, Z is 25, AA is 26).
    /// An error where the label is empty, holds anything but upper-case
    /// letters, or numbers more columns than `usize` counts.
    pub fn col_to_index(col: &String) -> (r: Result<usize, AddressSyntaxError>)
        ensures
            r == (if label_fits(col@) {
                Ok::<usize, AddressSyntaxError>(column_index(col@) as usize)
            } else {
                Err(AddressSyntaxError)
            }),
    {
        let s = col.as_str();
        let n = s.unicode_len();
        if n == 0 {
            return Err(AddressSyntaxError);
        }
        let mut idx: usize = 0;
        let mut i: usize = 0;
        while i < n
            invariant
                n == col@.len(),
                s@ == col@,
                0 <= i <= n,
                forall|k: int| 0 <= k < i ==> is_upper(#[trigger] col@[k]),
                idx as nat == label_numeral(col@.take(i as int)),
            decreases n - i,
        {
            let c = s.get_char(i);
            if !is_upper_char(c) {
                return Err(AddressSyntaxError);
            }
            let digit: usize = (c as u32 - 64) as usize;
            assert(col@.take(i + 1).drop_last() =~= col@.take(i as int));
            match idx.checked_mul(26) {
                Some(m) => match m.checked_add(digit) {
                    Some(v) => {
                        idx = v;
                    },
                    None => {
                        proof {
                            lemma_upper_prefix_fits(col@, i as int + 1);
                        }
                        return Err(AddressSyntaxError);
                    },
                },
                None => {
                    proof {
                        lemma_upper_prefix_fits(col@, i as int + 1);
                    }
                    return Err(AddressSyntaxError);
                },
            }
            i = i + 1;
        }
        assert(col@.take(n as int) =~= col@);
        Ok(idx - 1)
    }

    /// The value at `loc`, unevaluated; `None` where no cell holds one.
    pub fn get_cell(&self, loc: CellLoc) -> (r: Option<CellVal>)
        requires
            self.wf(),
        ensures
            opt_val_model(r) == self.read(loc@),
    {
        let col_idx = match Sheet::col_to_index(&loc.col) {
            Ok(i) => i,
            Err(_) => {
                return None;
            },
        };
        if col_idx < self.n_cols {
            let col = &self.cols[col_idx];
            assert(col@ == self.columns()[col_idx as int]);
            assert(column_ok(self.columns()[col_idx as int], col_idx as int, self.n_rows));
            let mut i: usize = 0;
            while i < col.len()
                invariant
                    0 <= i <= col.len(),
                    col_idx < self.columns().len(),
                    label_fits(loc.col@),
                    col_idx == column_index(loc.col@),
                    col@ == self.columns()[col_idx as int],
                    rows_ascend(col@),
                    forall|k: int| 0 <= k < i ==> #[trigger] col@[k].loc.row != loc.row,
                decreases col.len() - i,
            {
                if col[i].loc.row == loc.row {
                    proof {
                        lemma_value_at(col@, i as int);
                    }
                    return Some(col[i].val.duplicate());
                }
                i = i + 1;
            }
        }
        None
    }

    /// Removes the cell at `loc` and says whether there was one. The column
    /// and row counts stay as they are.
    pub fn delete_cell(&mut self, loc: CellLoc) -> (r: bool)
        requires
            old(self).wf(),
        ensures
            delete_effect(*old(self), *final(self), loc@, r),
            final(self).n_cols == old(self).n_cols,
            final(self).n_rows == old(self).n_rows,
            forall|c: int, row: usize|
                final(self).get(c, row) == if label_fits(loc.col@) && c == column_index(loc.col@)
                    && row == loc.row {
                    None
                } else {
                    old(self).get(c, row)
                },
            forall|c: int|
                0 <= c < final(self).columns().len() ==> (#[trigger] final(self).columns()[c]).len()
                    == if r && c == column_index(loc.col@) {
                    old(self).columns()[c].len() - 1
                } else {
                    old(self).columns()[c].len() as int
                },
    {
        let col_idx = match Sheet::col_to_index(&loc.col) {
            Ok(i) => i,
            Err(_) => {
                return false;
            },
        };
        if col_idx >= self.n_cols {
            return false;
        }
        let ghost before = self.columns()[col_idx as int];
        assert(column_ok(before, col_idx as int, self.n_rows));
        let n = self.cols[col_idx].len();
        let mut i: usize = 0;
        while i < n && self.cols[col_idx][i].loc.row != loc.row
            invariant
                0 <= i <= n,
                self.wf(),
                *self == *old(self),
                col_idx < self.cols@.len(),
                n == before.len(),
                self.cols@[col_idx as int]@ == before,
                forall|k: int| 0 <= k < i ==> #[trigger] before[k].loc.row != loc.row,
            decreases n - i,
        {
            i = i + 1;
        }
        if i == n {
            return false;
        }
        let ghost start = *self;
        let _ = self.cols[col_idx].remove(i);
        proof {
            lemma_remove_cell(before, i as int, col_idx as int, self.n_rows);
            let after = self.columns()[col_idx as int];
            assert(after == before.remove(i as int));
            assert(self.columns() =~= start.columns().update(col_idx as int, after));
            assert forall|c: int| 0 <= c < self.columns().len() implies column_ok(
                #[trigger] self.columns()[c],
                c,
                self.n_rows,
            ) by {
                if c != col_idx {
                    assert(self.columns()[c] == start.columns()[c]);
                }
            }
        }
        true
    }

    /// Drops the trailing empty columns and sets the row count to the greatest
    /// row held. Says whether either count changed.
    pub fn shrink(&mut self) -> (r: bool)
        requires
            old(self).wf(),
        ensures
            final(self).wf(),
            final(self).columns() == old(self).columns().take(trimmed_len(old(self).columns()) as int),
            final(self).n_cols == trimmed_len(old(self).columns()),
            final(self).n_rows == max_row(final(self).columns()),
            r == (final(self).n_cols != old(self).n_cols || final(self).n_rows != old(self).n_rows),
    {
        let ghost start = *self;
        let mut modified = false;
        while self.cols.len() > 0 && self.cols[self.cols.len() - 1].len() == 0
            invariant
                self.wf(),
                self.n_rows == start.n_rows,
                self.columns().len() <= start.columns().len(),
                self.columns() == start.columns().take(self.columns().len() as int),
                trimmed_len(self.columns()) == trimmed_len(start.columns()),
                modified == (self.columns().len() != start.columns().len()),
            decreases self.cols.len(),
        {
            let ghost prev = self.columns();
            let _ = self.cols.pop();
            self.n_cols = self.n_cols - 1;
            modified = true;
            assert(self.columns() =~= prev.drop_last());
            assert(self.columns() =~= start.columns().take(self.columns().len() as int));
            assert forall|c: int| 0 <= c < self.columns().len() implies column_ok(
                #[trigger] self.columns()[c],
                c,
                self.n_rows,
            ) by {
                assert(self.columns()[c] == prev[c]);
            }
        }
        assert(trimmed_len(self.columns()) == self.columns().len());
        let ghost kept = self.columns();
        let mut max: usize = 0;
        let mut c: usize = 0;
        while c < self.cols.len()
            invariant
                0 <= c <= kept.len(),
                self.columns() == kept,
                max == max_row(kept.take(c as int)),
            decreases kept.len() - c,
        {
            let col = &self.cols[c];
            let ghost cells = kept[c as int];
            assert(col@ == cells);
            let mut m: usize = 0;
            let mut i: usize = 0;
            while i < col.len()
                invariant
                    0 <= i <= cells.len(),
                    col@ == cells,
                    m == max_row_in(cells.take(i as int)),
                decreases cells.len() - i,
            {
                assert(cells.take(i + 1).drop_last() =~= cells.take(i as int));
                if col[i].loc.row > m {
                    m = col[i].loc.row;
                }
                i = i + 1;
            }
            assert(cells.take(i as int) =~= cells);
            assert(kept.take(c + 1).drop_last() =~= kept.take(c as int));
            assert(kept.take(c + 1).last() == cells);
            if m > max {
                max = m;
            }
            c = c + 1;
        }
        assert(kept.take(c as int) =~= kept);
        if self.n_rows != max {
            modified = true;
        }
        self.n_rows = max;
        proof {
            assert forall|c: int| 0 <= c < self.columns().len() implies column_ok(
                #[trigger] self.columns()[c],
                c,
                self.n_rows,
            ) by {
                assert(column_ok(kept[c], c, start.n_rows));
                assert forall|k: int| 0 <= k < kept[c].len() implies #[trigger] kept[c][k].loc.row
                    <= self.n_rows by {
                    lemma_max_row_bound(kept, c, k);
                }
            }
        }
        modified
    }

    /// Resolves the cell references of an expression tree against the sheet,
    /// as `resolve` describes.
    pub fn eval_tree(&self, root: &TknLink) -> (r: Option<TknLink>)
        requires
            self.wf(),
        ensures
            match r {
                Some(t) => self.resolve(link_model(*root)) == Some(link_model(t)),
                None => self.resolve(link_model(*root)) is None,
            },
        decreases root,
    {
        match root {
            None => None,
            Some(node) => match &node.token {
                FormToken::Num(n) => {
                    let tok = FormToken::Num(n.duplicate());
                    let r = Some(Box::new(TknNode { token: tok, left: None, right: None }));
                    assert(link_model(None) == TreeModel::Empty);
                    Some(r)
                },
                FormToken::Loc(loc) => {
                    let num = match self.get_cell(loc.duplicate()) {
                        Some(CellVal::Int(v)) => Number::Int(v),
                        Some(CellVal::Real(b)) => Number::Real(b),
                        _ => {
                            return None;
                        },
                    };
                    let r = Some(Box::new(TknNode { token: FormToken::Num(num), left: None, right: None }));
                    assert(link_model(None) == TreeModel::Empty);
                    Some(r)
                },
                FormToken::BinOp(op) => {
                    let left = match self.eval_tree(&node.left) {
                        Some(l) => l,
                        None => {
                            return None;
                        },
                    };
                    let right = match self.eval_tree(&node.right) {
                        Some(r) => r,
                        None => {
                            return None;
                        },
                    };
                    Some(Some(Box::new(TknNode { token: FormToken::BinOp(*op), left, right })))
                },
            },
        }
    }

    /// Parses a formula value and resolves its references: the tree that
    /// floating-point arithmetic then reduces to the cell's value. `None`
    /// stands for the error marker.
    pub fn eval_formula_cell(&self, cell_val: &CellVal) -> (r: Option<TknTree>)
        requires
            self.wf(),
        ensures
            match r {
                Some(t) => self.formula_terms(cell_val@) == Some(t.model()),
                None => self.formula_terms(cell_val@) is None,
            },
    {
        match parse_formula_expr(cell_val) {
            Some(tree) => match self.eval_tree(&tree.root) {
                Some(root) => Some(TknTree { root }),
                None => None,
            },
            None => None,
        }
    }

    /// The value a formula cell shows, given what reducing its resolved tree
    /// gave, as the bit pattern of a double: that real, or the text `#ERR`
    /// where there was no result.
    pub fn formula_display(reduced: Option<u64>) -> (r: CellVal)
        ensures
            r@ == match reduced {
                Some(b) => ValModel::Real(b),
                None => ValModel::Text(seq!['#', 'E', 'R', 'R']),
            },
    {
        match reduced {
            Some(b) => CellVal::Real(b),
            None => {
                let marker = "#ERR".to_string();
                proof {
                    broadcast use vstd::string::group_string_axioms;

                    reveal_strlit("#ERR");
                    assert(marker@ =~= seq!['#', 'E', 'R', 'R']);
                }
                CellVal::Text(marker)
            },
        }
    }

    /// Appends an empty column.
    pub fn add_col(&mut self)
        requires
            old(self).wf(),
            old(self).n_cols < usize::MAX,
        ensures
            final(self).wf(),
            final(self).columns() == old(self).columns().push(Seq::empty()),
            final(self).n_cols == old(self).n_cols + 1,
            final(self).n_rows == old(self).n_rows,
    {
        self.cols.push(Vec::new());
        self.n_cols = self.n_cols + 1;
        assert(self.columns() =~= old(self).columns().push(Seq::empty()));
        assert forall|c: int| 0 <= c < self.columns().len() implies column_ok(
            #[trigger] self.columns()[c],
            c,
            self.n_rows,
        ) by {
            if c < old(self).columns().len() {
                assert(self.columns()[c] == old(self).columns()[c]);
            }
        }
    }

    /// Raises the row count by one.
    pub fn add_row(&mut self)
        requires
            old(self).wf(),
            old(self).n_rows < usize::MAX,
        ensures
            final(self).wf(),
            final(self).columns() == old(self).columns(),
            final(self).n_cols == old(self).n_cols,
            final(self).n_rows == old(self).n_rows + 1,
    {
        self.n_rows = self.n_rows + 1;
        assert forall|c: int| 0 <= c < self.columns().len() implies column_ok(
            #[trigger] self.columns()[c],
            c,
            self.n_rows,
        ) by {
            lemma_column_ok_raise(old(self).columns()[c], c, old(self).n_rows, self.n_rows);
        }
    }

    /// Writes `val` at `loc`. Columns are added up to the address's column, a
    /// cell of the same row is replaced in place, and the row count rises to
    /// the row written where that is greater.
    pub fn write_cell(&mut self, loc: CellLoc, val: CellVal)
        requires
            old(self).wf(),
            valid_loc(loc@),
        ensures
            write_effect(*old(self), *final(self), loc@, val@),
    {
        let ghost start = *self;
        proof {
            lemma_label_numeral_grows(loc.col@, 0);
        }
        let col_idx = Sheet::col_to_index(&loc.col).unwrap();
        assert(col_idx < usize::MAX);
        while col_idx >= self.n_cols
            invariant
                col_idx < usize::MAX,
                start == *old(self),
                start.wf(),
                self.wf(),
                col_idx == column_index(loc.col@),
                self.n_rows == start.n_rows,
                start.n_cols <= self.n_cols <= if col_idx < start.n_cols {
                    start.n_cols as int
                } else {
                    col_idx + 1
                },
                forall|c: int|
                    0 <= c < self.columns().len() ==> (if c < start.columns().len() {
                        #[trigger] self.columns()[c] == start.columns()[c]
                    } else {
                        self.columns()[c].len() == 0
                    }),
            decreases col_idx + 1 - self.n_cols,
        {
            let ghost before = *self;
            self.add_col();
            assert forall|c: int| 0 <= c < self.columns().len() implies (if c < start.columns().len() {
                #[trigger] self.columns()[c] == start.columns()[c]
            } else {
                self.columns()[c].len() == 0
            }) by {
                assert(self.columns() == before.columns().push(Seq::<Cell>::empty()));
                if c < before.columns().len() {
                    assert(self.columns()[c] == before.columns()[c]);
                } else {
                    assert(c == before.columns().len());
                    assert(self.columns()[c] == Seq::<Cell>::empty());
                }
            }
        }
        let ghost widened = *self;
        let row = loc.row;
        let new_cell = Cell { loc, val };
        let ghost cell_m = new_cell;
        assert(column_ok(self.columns()[col_idx as int], col_idx as int, self.n_rows));
        assert(self.columns()[col_idx as int] == self.cols@[col_idx as int]@);
        place_cell(&mut self.cols[col_idx], new_cell);
        if row > self.n_rows {
            self.n_rows = row;
        }
        proof {
            assert(self.columns() =~= widened.columns().update(
                col_idx as int,
                self.columns()[col_idx as int],
            ));
            let nc = self.columns()[col_idx as int];
            let oc = widened.columns()[col_idx as int];
            assert(column_ok(oc, col_idx as int, widened.n_rows));
            lemma_members_ok(oc, nc, cell_m, col_idx as int, widened.n_rows, self.n_rows);
            assert forall|c: int| 0 <= c < self.columns().len() implies column_ok(
                #[trigger] self.columns()[c],
                c,
                self.n_rows,
            ) by {
                if c != col_idx {
                    assert(self.columns()[c] == widened.columns()[c]);
                    assert(column_ok(widened.columns()[c], c, widened.n_rows));
                }
            }
        }
    }
}


/// Removing the cell at `i` keeps the column well formed, clears its row,
/// and leaves every other row as it was.
proof fn lemma_remove_cell(before: Seq<Cell>, i: int, c: int, n_rows: usize)
    requires
        column_ok(before, c, n_rows),
        0 <= i < before.len(),
    ensures
        column_ok(before.remove(i), c, n_rows),
        value_at(before.remove(i), before[i].loc.row) is None,
        forall|r: usize|
            r != before[i].loc.row ==> value_at(before.remove(i), r) == value_at(before, r),
{
    let after = before.remove(i);
    let row = before[i].loc.row;
    assert forall|k: int| 0 <= k < after.len() implies after[k] == before[if k < i {
        k
    } else {
        k + 1
    }] by {}
    assert forall|a: int, b: int| 0 <= a < b < after.len() implies after[a].loc.row
        < after[b].loc.row by {
        if b < i {
        } else if a < i {
            assert(before[a].loc.row < before[b + 1].loc.row);
        } else {
            assert(before[a + 1].loc.row < before[b + 1].loc.row);
        }
    }
    assert forall|k: int| 0 <= k < after.len() implies after[k].loc.row != row by {
        if k < i {
            assert(before[k].loc.row < before[i].loc.row);
        } else {
            assert(before[i].loc.row < before[k + 1].loc.row);
        }
    }
    assert forall|r2: usize| r2 != row implies value_at(after, r2) == value_at(before, r2) by {
        if exists|j: int| 0 <= j < before.len() && before[j].loc.row == r2 {
            let j = choose|j: int| 0 <= j < before.len() && before[j].loc.row == r2;
            lemma_value_at(before, j);
            if j < i {
                lemma_value_at(after, j);
            } else {
                lemma_value_at(after, j - 1);
            }
        } else {
            assert forall|k: int| 0 <= k < after.len() implies after[k].loc.row != r2 by {
                if k >= i {
                    assert(after[k] == before[k + 1]);
                }
            }
        }
    }
    assert forall|k: int| 0 <= k < after.len() implies cell_ok(
        #[trigger] after[k],
        c,
        n_rows,
    ) by {
        if k >= i {
            assert(after[k] == before[k + 1]);
        }
    }
}

proof fn lemma_column_ok_raise(cells: Seq<Cell>, c: int, n0: usize, n: usize)
    requires
        column_ok(cells, c, n0),
        n0 <= n,
    ensures
        column_ok(cells, c, n),
{
    assert forall|i: int| 0 <= i < cells.len() implies cell_ok(
        #[trigger] cells[i],
        c,
        n,
    ) by {}
}

/// A column whose cells are the new cell or cells of a well-formed column
/// of the same index is well formed, where its rows ascend.
proof fn lemma_members_ok(before: Seq<Cell>, after: Seq<Cell>, cell: Cell, c: int, n0: usize, n: usize)
    requires
        column_ok(before, c, n0),
        n0 <= n,
        rows_ascend(after),
        valid_loc(cell.loc@),
        column_index(cell.loc.col@) == c,
        cell.loc.row <= n,
        forall|i: int|
            0 <= i < after.len() ==> #[trigger] after[i] == cell || exists|j: int|
                0 <= j < before.len() && after[i] == before[j],
    ensures
        column_ok(after, c, n),
{
    assert forall|i: int| 0 <= i < after.len() implies cell_ok(
        #[trigger] after[i],
        c,
        n,
    ) by {
        if after[i] != cell {
            let j = choose|j: int| 0 <= j < before.len() && after[i] == before[j];
        }
    }
}

#[verifier::rlimit(60)]
/// Puts `cell` into a column in row order: it replaces the cell of the same
/// row, or goes in before the first cell of a greater row.
fn place_cell(col: &mut Vec<Cell>, cell: Cell)
    requires
        rows_ascend(old(col)@),
    ensures
        rows_ascend(final(col)@),
        forall|r: usize|
            value_at(final(col)@, r) == (if r == cell.loc.row {
                Some(cell.val@)
            } else {
                value_at(old(col)@, r)
            }),
        forall|i: int|
            0 <= i < final(col)@.len() ==> #[trigger] final(col)@[i] == cell || exists|j: int|
                0 <= j < old(col)@.len() && final(col)@[i] == old(col)@[j],
        final(col)@.len() == old(col)@.len() + if value_at(old(col)@, cell.loc.row) is Some {
            0int
        } else {
            1int
        },
{
    let ghost before = col@;
    let ghost cell_m = cell;
    let row = cell.loc.row;
    let n = col.len();
    if n == 0 || row > col[n - 1].loc.row {
        col.push(cell);
        proof {
            let after = col@;
            assert forall|k: int| 0 <= k < n implies #[trigger] before[k].loc.row != row by {
                if k < n - 1 {
                    assert(before[k].loc.row < before[n - 1].loc.row);
                }
            }
            assert(after[n as int] == cell_m);
            lemma_value_at(after, n as int);
            assert forall|r: usize| r != row implies value_at(after, r) == value_at(before, r) by {
                if exists|j: int| 0 <= j < before.len() && before[j].loc.row == r {
                    let j = choose|j: int| 0 <= j < before.len() && before[j].loc.row == r;
                    lemma_value_at(before, j);
                    assert(after[j] == before[j]);
                    lemma_value_at(after, j);
                } else {
                    assert forall|k: int| 0 <= k < after.len() implies after[k].loc.row != r by {
                        if k < n {
                            assert(after[k] == before[k]);
                        }
                    }
                }
            }
            assert forall|i: int| 0 <= i < after.len() implies #[trigger] after[i] == cell_m || exists|j: int|
                0 <= j < before.len() && after[i] == before[j] by {
                if i < n {
                    assert(after[i] == before[i]);
                }
            }
        }
        return ;
    }
    let mut i: usize = 0;
    while i < n && col[i].loc.row < row
        invariant
            0 <= i <= n,
            n == col.len(),
            col@ == before,
            forall|k: int| 0 <= k < i ==> #[trigger] before[k].loc.row < row,
        decreases n - i,
    {
        i = i + 1;
    }
    assert(i < n) by {
        if i == n {
            assert(before[n - 1].loc.row < row);
        }
    }
    if col[i].loc.row == row {
        col.set(i, cell);
        proof {
            let after = col@;
            lemma_value_at(before, i as int);
            assert(after == before.update(i as int, cell_m));
            lemma_value_at(after, i as int);
            assert forall|r: usize| r != row implies value_at(after, r) == value_at(before, r) by {
                if exists|j: int| 0 <= j < before.len() && before[j].loc.row == r {
                    let j = choose|j: int| 0 <= j < before.len() && before[j].loc.row == r;
                    lemma_value_at(before, j);
                    assert(j != i);
                    lemma_value_at(after, j);
                } else {
                    assert forall|k: int| 0 <= k < after.len() implies after[k].loc.row != r by {
                        if k != i {
                            assert(after[k] == before[k]);
                        }
                    }
                }
            }
            assert forall|a: int, b: int| 0 <= a < b < after.len() implies after[a].loc.row
                < after[b].loc.row by {
                assert(before[a].loc.row < before[b].loc.row);
            }
            assert forall|a: int| 0 <= a < after.len() implies #[trigger] after[a] == cell_m || exists|j: int|
                0 <= j < before.len() && after[a] == before[j] by {
                if a != i {
                    assert(after[a] == before[a]);
                }
            }
        }
    } else {
        col.insert(i, cell);
        proof {
            let after = col@;
            assert forall|k: int| 0 <= k < n implies #[trigger] before[k].loc.row != row by {
                if k > i {
                    assert(before[i as int].loc.row < before[k].loc.row);
                }
            }
            assert(after == before.insert(i as int, cell_m));
            lemma_value_at(after, i as int);
            assert forall|r: usize| r != row implies value_at(after, r) == value_at(before, r) by {
                if exists|j: int| 0 <= j < before.len() && before[j].loc.row == r {
                    let j = choose|j: int| 0 <= j < before.len() && before[j].loc.row == r;
                    lemma_value_at(before, j);
                    if j < i {
                        assert(after[j] == before[j]);
                        lemma_value_at(after, j);
                    } else {
                        assert(after[j + 1] == before[j]);
                        lemma_value_at(after, j + 1);
                    }
                } else {
                    assert forall|k: int| 0 <= k < after.len() implies after[k].loc.row != r by {
                        if k < i {
                            assert(after[k] == before[k]);
                        } else if k > i {
                            assert(after[k] == before[k - 1]);
                        }
                    }
                }
            }
            assert forall|a: int, b: int| 0 <= a < b < after.len() implies after[a].loc.row
                < after[b].loc.row by {
                if b < i {
                    assert(before[a].loc.row < before[b].loc.row);
                } else if b == i {
                    assert(before[a].loc.row < row);
                } else if a < i {
                    assert(before[a].loc.row < row);
                    assert(before[i as int].loc.row <= before[b - 1].loc.row);
                } else if a == i {
                    assert(before[i as int].loc.row <= before[b - 1].loc.row);
                } else {
                    assert(before[a - 1].loc.row < before[b - 1].loc.row);
                }
            }
            assert forall|a: int| 0 <= a < after.len() implies #[trigger] after[a] == cell_m || exists|j: int|
                0 <= j < before.len() && after[a] == before[j] by {
                if a < i {
                    assert(after[a] == before[a]);
                } else if a > i {
                    assert(after[a] == before[a - 1]);
                }
            }
        }
    }
}

/// Where a label holds upper-case letters up to `i` and its first `i` letters
/// already number more than `usize` counts, the whole label does not fit.
proof fn lemma_upper_prefix_fits(s: Seq<char>, i: int)
    requires
        0 < i <= s.len(),
        forall|k: int| 0 <= k < i ==> is_upper(#[trigger] s[k]),
        label_numeral(s.take(i)) > usize::MAX,
    ensures
        !label_fits(s),
{
    if is_label(s) {
        lemma_label_numeral_grows(s, i);
    }
}


/// Reading an address right after writing a value there gives that value.
/// Writing a second value at the same address replaces the first: reading
/// gives the second, the column holds no more cells than after the first
/// write, and its rows still strictly ascend.
pub proof fn law_write_then_read(
    s0: Sheet,
    s1: Sheet,
    s2: Sheet,
    loc: LocModel,
    v: ValModel,
    v2: ValModel,
)
    requires
        s0.wf(),
        valid_loc(loc),
        write_effect(s0, s1, loc, v),
        write_effect(s1, s2, loc, v2),
    ensures
        s1.read(loc) == Some(v),
        s2.read(loc) == Some(v2),
        s2.columns()[column_index(loc.col)].len() == s1.columns()[column_index(loc.col)].len(),
        rows_ascend(s2.columns()[column_index(loc.col)]),
{
    let idx = column_index(loc.col);
    lemma_label_numeral_grows(loc.col, 0);
    assert(s1.get(idx, loc.row) == Some(v));
    assert(s2.get(idx, loc.row) == Some(v2));
    assert(column_ok(s2.columns()[idx], idx, s2.n_rows));
}

/// Every column of a well-formed sheet, which every write, delete and
/// shrink keeps, holds its cells in strictly ascending rows, no row twice.
pub proof fn law_rows_ascend(s: Sheet)
    requires
        s.wf(),
    ensures
        forall|c: int| 0 <= c < s.columns().len() ==> rows_ascend(#[trigger] s.columns()[c]),
{
    assert forall|c: int| 0 <= c < s.columns().len() implies rows_ascend(
        #[trigger] s.columns()[c],
    ) by {
        assert(column_ok(s.columns()[c], c, s.n_rows));
    }
}

} // verus!
