//! The cross-tabulation itself: lines are read in order, consecutive lines
//! with the same (row, column) key form a run, and the first run of each key
//! fills its cell.
use vstd::prelude::*;

use crate::ops::{
    Acc, AccView, acc_add, acc_bump, acc_new, acc_renderable, acc_wf, push_bytes, render_spec,
};
use crate::sort::{
    compare_key, key, key_lt, key_order, key_order_of, keys_view, lemma_key_lt, line_key,
};
use crate::text::{
    bytes_equal, field, fields_of, intern, ByteOrder, lemma_split_on_nonempty, lemma_sorted_insert_sorted,
    sorted_insert, spans_cover, split_fields, split_on, strictly_sorted, views,
};
use crate::{Config, CrosstabError};

verus! {

// ---------------------------------------------------------------------
// Model
// ---------------------------------------------------------------------

/// A configuration reads fields by 1-based numbers.
pub open spec fn config_wf(cfg: Config) -> bool {
    &&& cfg.x >= 1
    &&& cfg.y >= 1
    &&& (cfg.agg matches Some((_, f)) ==> f >= 1)
}

/// The highest field number a line must have.
pub open spec fn need_of(cfg: Config) -> nat {
    let xy = if cfg.x >= cfg.y {
        cfg.x
    } else {
        cfg.y
    };
    match cfg.agg {
        Some((_, f)) => if f >= xy {
            f as nat
        } else {
            xy as nat
        },
        None => xy as nat,
    }
}

/// The operation the accumulators of a configuration apply.
pub open spec fn op_of(cfg: Config) -> Option<crate::ops::Op> {
    match cfg.agg {
        Some((op, _)) => Some(op),
        None => None,
    }
}

/// A cell of the table (or the run being read): its row and column labels
/// and what it has collected.
pub struct Cell {
    pub x: Vec<u8>,
    pub y: Vec<u8>,
    pub acc: Acc,
}

/// The contents of a cell.
pub struct CellView {
    pub x: Seq<u8>,
    pub y: Seq<u8>,
    pub acc: AccView,
}

impl View for Cell {
    type V = CellView;

    open spec fn view(&self) -> CellView {
        CellView { x: self.x@, y: self.y@, acc: self.acc@ }
    }
}

/// The contents of a list of cells.
pub open spec fn cells_view(cells: Seq<Cell>) -> Seq<CellView> {
    cells.map_values(|c: Cell| c@)
}

/// A value of a numeric cell, with the (1-based) line it was read from. Only
/// the caller can tell whether it is a number.
pub struct NumericValue {
    pub line: usize,
    pub raw: Vec<u8>,
}

/// What has been read so far: the sorted row and column labels, the closed
/// cells in the order they were closed, the run being read, and the values
/// of numeric cells in the order they were read.
pub struct StateView {
    pub xs: Seq<Seq<u8>>,
    pub ys: Seq<Seq<u8>>,
    pub cells: Seq<CellView>,
    pub run: Option<CellView>,
    pub checks: Seq<(nat, Seq<u8>)>,
}

/// Nothing read yet.
pub open spec fn initial_state() -> StateView {
    StateView {
        xs: Seq::empty(),
        ys: Seq::empty(),
        cells: Seq::empty(),
        run: None,
        checks: Seq::empty(),
    }
}

/// Some cell of `cells` has labels `x` and `y`.
pub open spec fn has_cell(cells: Seq<CellView>, x: Seq<u8>, y: Seq<u8>) -> bool {
    exists|i: int| 0 <= i < cells.len() && (#[trigger] cells[i]).x == x && cells[i].y == y
}

/// The position of the cell with labels `x` and `y`.
pub open spec fn cell_index(cells: Seq<CellView>, x: Seq<u8>, y: Seq<u8>) -> int {
    choose|i: int| 0 <= i < cells.len() && (#[trigger] cells[i]).x == x && cells[i].y == y
}

/// No two cells have the same labels.
pub open spec fn cells_distinct(cells: Seq<CellView>) -> bool {
    forall|i: int, j: int|
        0 <= i < j < cells.len() ==> !((#[trigger] cells[i]).x == (#[trigger] cells[j]).x
            && cells[i].y == cells[j].y)
}

/// `c` added to `cells` unless a cell with its labels is there already: the
/// first run of a key fills its cell.
pub open spec fn add_cell(cells: Seq<CellView>, c: CellView) -> Seq<CellView> {
    if has_cell(cells, c.x, c.y) {
        cells
    } else {
        cells.push(c)
    }
}

/// The run being read, closed into the cells.
pub open spec fn close_run(st: StateView) -> StateView {
    match st.run {
        Some(r) => StateView { cells: add_cell(st.cells, r), run: None, ..st },
        None => st,
    }
}

/// A new run for labels `x`, `y`, after closing the current one.
pub open spec fn start_run(cfg: Config, st: StateView, x: Seq<u8>, y: Seq<u8>) -> StateView {
    let c = close_run(st);
    StateView {
        xs: sorted_insert(c.xs, x),
        ys: sorted_insert(c.ys, y),
        run: Some(CellView { x, y, acc: acc_new(op_of(cfg)) }),
        ..c
    }
}

/// Reading line `lineno` (0-based) with contents `line`.
pub open spec fn feed_spec(cfg: Config, st: StateView, lineno: nat, line: Seq<u8>) -> Result<
    StateView,
    CrosstabError,
> {
    let fs = fields_of(line, cfg.delim);
    if fs.len() < need_of(cfg) {
        Err(
            CrosstabError::ShortRow {
                need: need_of(cfg) as usize,
                line: (lineno + 1) as usize,
                got: fs.len() as usize,
            },
        )
    } else {
        let xv = fs[cfg.x - 1];
        let yv = fs[cfg.y - 1];
        let st1 = if st.run matches Some(r) && r.x == xv && r.y == yv {
            st
        } else {
            start_run(cfg, st, xv, yv)
        };
        let r = st1.run.unwrap();
        match cfg.agg {
            None => Ok(StateView { run: Some(CellView { acc: acc_bump(r.acc), ..r }), ..st1 }),
            Some((_, f)) => {
                let v = fs[f - 1];
                let checks = if r.acc is Nums {
                    st1.checks.push((lineno + 1, v))
                } else {
                    st1.checks
                };
                Ok(StateView { run: Some(CellView { acc: acc_add(r.acc, v), ..r }), checks, ..st1 })
            },
        }
    }
}

/// An accumulator of a run or cell holds at least one value.
pub open spec fn acc_filled(a: AccView) -> bool {
    match a {
        AccView::Count(_) => true,
        AccView::Nums(_, vals) => vals.len() > 0,
        AccView::Strs(_, vals) => vals.len() > 0,
    }
}

/// What holds of every state the reading goes through.
pub open spec fn state_inv(st: StateView) -> bool {
    &&& strictly_sorted(st.xs)
    &&& strictly_sorted(st.ys)
    &&& cells_distinct(st.cells)
    &&& forall|i: int|
        0 <= i < st.cells.len() ==> acc_wf((#[trigger] st.cells[i]).acc) && acc_filled(
            st.cells[i].acc,
        )
    &&& (st.run matches Some(r) ==> acc_wf(r.acc) && acc_filled(r.acc))
}

/// The count of the run being read, if it counts.
pub open spec fn run_count(st: StateView) -> nat {
    match st.run {
        Some(r) => match r.acc {
            AccView::Count(n) => n,
            _ => 0,
        },
        None => 0,
    }
}

// ---------------------------------------------------------------------
// Reading lines
// ---------------------------------------------------------------------

/// The state of the reading.
pub struct RunState {
    xs: Vec<Vec<u8>>,
    ys: Vec<Vec<u8>>,
    cells: Vec<Cell>,
    order: Vec<usize>,
    run: Option<Cell>,
    checks: Vec<NumericValue>,
    field_buf: Vec<(usize, usize)>,
}

/// The contents of a list of numeric values.
pub open spec fn checks_view(c: Seq<NumericValue>) -> Seq<(nat, Seq<u8>)> {
    c.map_values(|v: NumericValue| (v.line as nat, v.raw@))
}

impl View for RunState {
    type V = StateView;

    closed spec fn view(&self) -> StateView {
        StateView {
            xs: views(self.xs@),
            ys: views(self.ys@),
            cells: cells_view(self.cells@),
            run: match self.run {
                Some(r) => Some(r@),
                None => None,
            },
            checks: checks_view(self.checks@),
        }
    }
}

impl RunState {
    /// The cells are listed by key.
    pub closed spec fn indexed(&self) -> bool {
        index_of_cells(cells_view(self.cells@), self.order@)
    }
}

/// The labels of a cell, as a key.
pub open spec fn cell_key(c: CellView) -> (Seq<u8>, Seq<u8>) {
    (c.x, c.y)
}

/// `order` lists the positions of `cells` by key (row label, then column
/// label), each position once.
pub open spec fn index_of_cells(cells: Seq<CellView>, order: Seq<usize>) -> bool {
    &&& order.len() == cells.len()
    &&& forall|k: int| 0 <= k < order.len() ==> (#[trigger] order[k]) < cells.len()
    &&& forall|a: int, b: int|
        0 <= a < b < order.len() ==> key_lt(
            cell_key(cells[#[trigger] order[a] as int]),
            cell_key(cells[#[trigger] order[b] as int]),
        )
    &&& forall|i: int| 0 <= i < cells.len() ==> #[trigger] listed(order, i)
}

/// Position `i` is listed in `order`.
pub open spec fn listed(order: Seq<usize>, i: int) -> bool {
    exists|k: int| 0 <= k < order.len() && #[trigger] order[k] == i
}

/// Where a key would stand in the index, no cell has it.
proof fn lemma_not_indexed(cells: Seq<CellView>, order: Seq<usize>, t: (Seq<u8>, Seq<u8>), k: int)
    requires
        index_of_cells(cells, order),
        0 <= k <= order.len(),
        forall|a: int| 0 <= a < k ==> key_lt(cell_key(cells[#[trigger] order[a] as int]), t),
        forall|a: int| k <= a < order.len() ==> key_lt(t, cell_key(cells[#[trigger] order[a] as int])),
    ensures
        !has_cell(cells, t.0, t.1),
{
    if has_cell(cells, t.0, t.1) {
        let i = choose|i: int| 0 <= i < cells.len() && (#[trigger] cells[i]).x == t.0 && cells[i].y == t.1;
        assert(listed(order, i));
        let m = choose|m: int| 0 <= m < order.len() && #[trigger] order[m] == i;
        assert(cell_key(cells[order[m] as int]) == t);
        lemma_key_lt(t, t, t);
    }
}

/// A cell added at its place keeps the index.
proof fn lemma_index_insert(
    cells: Seq<CellView>,
    order: Seq<usize>,
    c: CellView,
    k: int,
    n: usize,
)
    requires
        index_of_cells(cells, order),
        n == cells.len(),
        0 <= k <= order.len(),
        forall|a: int| 0 <= a < k ==> key_lt(cell_key(cells[#[trigger] order[a] as int]), cell_key(c)),
        forall|a: int|
            k <= a < order.len() ==> key_lt(cell_key(c), cell_key(cells[#[trigger] order[a] as int])),
    ensures
        index_of_cells(cells.push(c), order.insert(k, n)),
{
    let c2 = cells.push(c);
    let o2 = order.insert(k, n);
    assert forall|m: int| 0 <= m < o2.len() implies (#[trigger] o2[m]) < c2.len()
        && cell_key(c2[o2[m] as int]) == (if m < k {
        cell_key(cells[order[m] as int])
    } else if m == k {
        cell_key(c)
    } else {
        cell_key(cells[order[m - 1] as int])
    }) by {
        if m < k {
            assert(o2[m] == order[m]);
        } else if m > k {
            assert(o2[m] == order[m - 1]);
        }
    }
    assert forall|a: int, b: int| 0 <= a < b < o2.len() implies key_lt(
        cell_key(c2[#[trigger] o2[a] as int]),
        cell_key(c2[#[trigger] o2[b] as int]),
    ) by {
        assert(o2[a] < c2.len() && o2[b] < c2.len());
        if b < k {
            assert(o2[a] == order[a] && o2[b] == order[b]);
        } else if a > k {
            assert(o2[a] == order[a - 1] && o2[b] == order[b - 1]);
        } else if a == k {
            assert(o2[b] == order[b - 1]);
        } else if b == k {
            assert(o2[a] == order[a]);
        } else {
            assert(o2[a] == order[a] && o2[b] == order[b - 1]);
            lemma_key_lt(
                cell_key(cells[order[a] as int]),
                cell_key(c),
                cell_key(cells[order[b - 1] as int]),
            );
        }
    }
    assert forall|i: int| 0 <= i < c2.len() implies #[trigger] listed(o2, i) by {
        if i == n {
            assert(o2[k] == n);
        } else {
            assert(listed(order, i));
            let m = choose|m: int| 0 <= m < order.len() && #[trigger] order[m] == i;
            if m < k {
                assert(o2[m] == order[m]);
            } else {
                assert(o2[m + 1] == order[m]);
            }
        }
    }
}

/// Where the labels `x`, `y` stand among the cells listed by `order`:
/// `Ok(k)` where `order[k]` is the cell with these labels, or `Err(k)` where
/// such a cell would be listed.
fn search_cells(cells: &Vec<Cell>, order: &Vec<usize>, x: &[u8], y: &[u8]) -> (r: Result<usize, usize>)
    requires
        index_of_cells(cells_view(cells@), order@),
    ensures
        match r {
            Ok(k) => k < order@.len() && cell_key(cells_view(cells@)[order@[k as int] as int]) == (
                x@,
                y@,
            ),
            Err(k) => k <= order@.len() && (forall|a: int|
                0 <= a < k ==> key_lt(
                    cell_key(cells_view(cells@)[#[trigger] order@[a] as int]),
                    (x@, y@),
                )) && (forall|a: int|
                k <= a < order@.len() ==> key_lt(
                    (x@, y@),
                    cell_key(cells_view(cells@)[#[trigger] order@[a] as int]),
                )),
        },
{
    let ghost cv = cells_view(cells@);
    let ghost t = (x@, y@);
    let mut lo: usize = 0;
    let mut hi: usize = order.len();
    while lo < hi
        invariant
            cv == cells_view(cells@),
            t == (x@, y@),
            index_of_cells(cv, order@),
            lo <= hi <= order@.len(),
            forall|a: int| 0 <= a < lo ==> key_lt(cell_key(cv[#[trigger] order@[a] as int]), t),
            forall|a: int|
                hi <= a < order@.len() ==> key_lt(t, cell_key(cv[#[trigger] order@[a] as int])),
        decreases hi - lo,
    {
        let mid = lo + (hi - lo) / 2;
        let i = order[mid];
        assert(i < cells@.len());
        let c = &cells[i];
        let ghost km = cell_key(cv[i as int]);
        assert(km == (c.x@, c.y@));
        match compare_key(c.x.as_slice(), c.y.as_slice(), x, y) {
            ByteOrder::Before => {
                proof {
                    assert forall|a: int| 0 <= a <= mid implies key_lt(
                        cell_key(cv[#[trigger] order@[a] as int]),
                        t,
                    ) by {
                        if a < mid {
                            lemma_key_lt(cell_key(cv[order@[a] as int]), km, t);
                        }
                    }
                }
                lo = mid + 1;
            },
            ByteOrder::Same => {
                return Ok(mid);
            },
            ByteOrder::After => {
                proof {
                    assert forall|a: int| mid <= a < order@.len() implies key_lt(
                        t,
                        cell_key(cv[#[trigger] order@[a] as int]),
                    ) by {
                        if a > mid {
                            lemma_key_lt(t, km, cell_key(cv[order@[a] as int]));
                        }
                    }
                }
                hi = mid;
            },
        }
    }
    Err(lo)
}

/// The index of the cell of `cells` with labels `x` and `y`, if any.
fn find_cell(cells: &Vec<Cell>, order: &Vec<usize>, x: &[u8], y: &[u8]) -> (r: Option<usize>)
    requires
        index_of_cells(cells_view(cells@), order@),
    ensures
        match r {
            Some(i) => i < cells@.len() && cells_view(cells@)[i as int].x == x@ && cells_view(
                cells@,
            )[i as int].y == y@,
            None => !has_cell(cells_view(cells@), x@, y@),
        },
{
    match search_cells(cells, order, x, y) {
        Ok(k) => Some(order[k]),
        Err(k) => {
            proof {
                lemma_not_indexed(cells_view(cells@), order@, (x@, y@), k as int);
            }
            None
        },
    }
}

impl RunState {
    /// Nothing read yet.
    pub fn new() -> (s: RunState)
        ensures
            s@ == initial_state(),
            s.indexed(),
    {
        let s = RunState {
            xs: Vec::new(),
            ys: Vec::new(),
            cells: Vec::new(),
            order: Vec::new(),
            run: None,
            checks: Vec::new(),
            field_buf: Vec::new(),
        };
        proof {
            assert(views(s.xs@) =~= Seq::<Seq<u8>>::empty());
            assert(views(s.ys@) =~= Seq::<Seq<u8>>::empty());
            assert(cells_view(s.cells@) =~= Seq::<CellView>::empty());
            assert(checks_view(s.checks@) =~= Seq::<(nat, Seq<u8>)>::empty());
        }
        s
    }

    /// Close the run being read into the cells, unless a cell with its labels
    /// is there already.
    pub fn finish(&mut self)
        requires
            state_inv(old(self)@),
            old(self).indexed(),
        ensures
            final(self)@ == close_run(old(self)@),
            state_inv(final(self)@),
            final(self).indexed(),
    {
        let ghost before = self@;
        match self.run.take() {
            Some(r) => {
                match search_cells(&self.cells, &self.order, r.x.as_slice(), r.y.as_slice()) {
                    Ok(_) => {},
                    Err(k) => {
                        let ghost old_cells = self.cells@;
                        let ghost old_order = self.order@;
                        let n = self.cells.len();
                        proof {
                            lemma_not_indexed(cells_view(old_cells), old_order, (r@.x, r@.y), k as int);
                            lemma_index_insert(
                                cells_view(old_cells),
                                old_order,
                                r@,
                                k as int,
                                n,
                            );
                        }
                        self.cells.push(r);
                        self.order.insert(k, n);
                        proof {
                            assert(cells_view(self.cells@) =~= cells_view(old_cells).push(r@));
                        }
                    },
                }
            },
            None => {},
        }
        proof {
            let after = self@;
            let expect = close_run(before);
            assert(after.cells =~= expect.cells);
            assert(after.xs =~= expect.xs);
        }
    }

    /// Read line `lineno` (0-based) with contents `line`.
    pub fn feed(&mut self, cfg: &Config, lineno: usize, line: &[u8]) -> (r: Result<
        (),
        CrosstabError,
    >)
        requires
            config_wf(*cfg),
            state_inv(old(self)@),
            old(self).indexed(),
            lineno < usize::MAX,
            run_count(old(self)@) < u64::MAX,
        ensures
            final(self).indexed(),
            match feed_spec(*cfg, old(self)@, lineno as nat, line@) {
                Ok(s) => r is Ok && final(self)@ == s,
                Err(e) => r == Err::<(), CrosstabError>(e) && final(self)@ == old(self)@,
            },
            state_inv(final(self)@),
    {
        let ghost before = self@;
        split_fields(line, cfg.delim, &mut self.field_buf);
        let ghost fs = fields_of(line@, cfg.delim);
        let xy = if cfg.x >= cfg.y {
            cfg.x
        } else {
            cfg.y
        };
        let need = match cfg.agg {
            Some((_, f)) => if f >= xy {
                f
            } else {
                xy
            },
            None => xy,
        };
        if self.field_buf.len() < need {
            let got = self.field_buf.len();
            proof {
                assert(self@ == before);
            }
            return Err(CrosstabError::ShortRow { need, line: lineno + 1, got });
        }
        let xv = field(line, &self.field_buf, cfg.x);
        let yv = field(line, &self.field_buf, cfg.y);
        let value = match cfg.agg {
            Some((_, f)) => Some(field(line, &self.field_buf, f)),
            None => None,
        };
        proof {
            assert(xv@ == fs[cfg.x - 1]);
            assert(yv@ == fs[cfg.y - 1]);
            if let Some((_, f)) = cfg.agg {
                assert(value.unwrap()@ == fs[f - 1]);
            }
        }
        let continues = match &self.run {
            Some(r) => bytes_equal(r.x.as_slice(), xv) && bytes_equal(r.y.as_slice(), yv),
            None => false,
        };
        let mut run = if continues {
            self.run.take().unwrap()
        } else {
            self.finish();
            let ghost closed = self@;
            intern(&mut self.xs, xv);
            intern(&mut self.ys, yv);
            proof {
                lemma_sorted_insert_sorted(closed.xs, xv@);
                lemma_sorted_insert_sorted(closed.ys, yv@);
            }
            let op = match cfg.agg {
                Some((op, _)) => Some(op),
                None => None,
            };
            Cell {
                x: vstd::slice::slice_to_vec(xv),
                y: vstd::slice::slice_to_vec(yv),
                acc: Acc::new(op),
            }
        };
        let ghost st1 = StateView { run: Some(run@), ..self@ };
        proof {
            assert(st1 == (if before.run matches Some(r) && r.x == fs[cfg.x - 1] && r.y == fs[cfg.y
                - 1] {
                before
            } else {
                start_run(*cfg, before, fs[cfg.x - 1], fs[cfg.y - 1])
            }));
        }
        match cfg.agg {
            None => {
                run.acc.bump();
            },
            Some(_) => {
                let v = value.unwrap();
                let numeric = match &run.acc {
                    Acc::Nums { .. } => true,
                    _ => false,
                };
                run.acc.push(v);
                if numeric {
                    let ghost old_checks = self.checks@;
                    self.checks.push(
                        NumericValue { line: lineno + 1, raw: vstd::slice::slice_to_vec(v) },
                    );
                    proof {
                        assert(checks_view(self.checks@) =~= checks_view(old_checks).push(
                            ((lineno + 1) as nat, v@),
                        ));
                    }
                }
            },
        }
        self.run = Some(run);
        proof {
            let expect = feed_spec(*cfg, before, lineno as nat, line@);
            assert(expect is Ok);
            assert(self@.xs == expect->Ok_0.xs);
            assert(self@.cells == expect->Ok_0.cells);
            assert(self@.checks =~= expect->Ok_0.checks);
            assert(self@.run == expect->Ok_0.run);
        }
        Ok(())
    }
}

} // verus!

verus! {

// ---------------------------------------------------------------------
// Reading a whole input
// ---------------------------------------------------------------------

/// The input without one trailing newline.
pub open spec fn body_of(raw: Seq<u8>) -> Seq<u8> {
    if raw.len() > 0 && raw.last() == 10 {
        raw.drop_last()
    } else {
        raw
    }
}

/// How many leading lines are headers.
pub open spec fn skip_of(cfg: Config) -> nat {
    if cfg.header_in {
        1
    } else {
        0
    }
}

/// The lines of a non-empty input that are read, in the order they are read:
/// input order, or with `sort` by key, lines with equal keys in input order.
pub open spec fn reading_order(cfg: Config, raw: Seq<u8>) -> Seq<Seq<u8>> {
    let rest = split_on(body_of(raw), 10).skip(skip_of(cfg) as int);
    if cfg.sort {
        let p = key_order(rest.map_values(|l: Seq<u8>| line_key(cfg, l)));
        Seq::new(rest.len(), |k: int| rest[p[k] as int])
    } else {
        rest
    }
}

/// Reading `lines` in order, the first being line `first` (0-based): the
/// state reached, and the error that stopped the reading, if any.
pub open spec fn read_lines(cfg: Config, lines: Seq<Seq<u8>>, first: nat) -> (
    StateView,
    Option<CrosstabError>,
)
    decreases lines.len(),
{
    if lines.len() == 0 {
        (initial_state(), None)
    } else {
        let prev = read_lines(cfg, lines.drop_last(), first);
        if prev.1 is Some {
            prev
        } else {
            match feed_spec(cfg, prev.0, (first + lines.len() - 1) as nat, lines.last()) {
                Ok(s) => (s, None),
                Err(e) => (prev.0, Some(e)),
            }
        }
    }
}

/// The finished table: sorted row labels, sorted column labels, and the
/// cells in the order they were closed.
pub struct TableView {
    pub xs: Seq<Seq<u8>>,
    pub ys: Seq<Seq<u8>>,
    pub cells: Seq<CellView>,
}

/// What holds of every finished table.
pub open spec fn table_inv(t: TableView) -> bool {
    state_inv(StateView { xs: t.xs, ys: t.ys, cells: t.cells, run: None, checks: Seq::empty() })
}

/// Cross-tabulating `raw`: the table, or the error that stopped the reading;
/// and, either way, the values read into numeric cells before that, with
/// their (1-based) line numbers, in reading order.
pub open spec fn crosstab_spec(raw: Seq<u8>, cfg: Config) -> (
    Result<TableView, CrosstabError>,
    Seq<(nat, Seq<u8>)>,
) {
    if body_of(raw).len() == 0 {
        (Ok(TableView { xs: Seq::empty(), ys: Seq::empty(), cells: Seq::empty() }), Seq::empty())
    } else {
        let r = read_lines(cfg, reading_order(cfg, raw), skip_of(cfg));
        match r.1 {
            Some(e) => (Err(e), r.0.checks),
            None => {
                let f = close_run(r.0);
                (Ok(TableView { xs: f.xs, ys: f.ys, cells: f.cells }), f.checks)
            },
        }
    }
}

/// A finished table.
pub struct Table {
    pub xs: Vec<Vec<u8>>,
    pub ys: Vec<Vec<u8>>,
    pub cells: Vec<Cell>,
    /// The positions of `cells` by key, to find a cell by its labels.
    pub order: Vec<usize>,
}

impl View for Table {
    type V = TableView;

    open spec fn view(&self) -> TableView {
        TableView { xs: views(self.xs@), ys: views(self.ys@), cells: cells_view(self.cells@) }
    }
}

/// The outcome of cross-tabulating an input.
pub struct Tabulation {
    /// The table, or why the input was refused.
    pub table: Result<Table, CrosstabError>,
    /// The values read into numeric cells, in reading order, up to the end or
    /// the refusal. The caller turns them into numbers; the first that is not
    /// one is an error that comes before `table`'s.
    pub numeric_values: Vec<NumericValue>,
}

/// The contents of a tabulation.
pub open spec fn tabulation_view(t: Tabulation) -> (
    Result<TableView, CrosstabError>,
    Seq<(nat, Seq<u8>)>,
) {
    (
        match t.table {
            Ok(table) => Ok(table@),
            Err(e) => Err(e),
        },
        checks_view(t.numeric_values@),
    )
}

impl RunState {
    /// The values read into numeric cells so far.
    pub fn into_numeric_values(self) -> (v: Vec<NumericValue>)
        ensures
            checks_view(v@) == self@.checks,
    {
        self.checks
    }

    /// The table read, once the last run is closed.
    pub fn into_table(self) -> (r: (Table, Vec<NumericValue>))
        requires
            self@.run is None,
            self.indexed(),
        ensures
            r.0@ == (TableView { xs: self@.xs, ys: self@.ys, cells: self@.cells }),
            index_of_cells(r.0@.cells, r.0.order@),
            checks_view(r.1@) == self@.checks,
    {
        (Table { xs: self.xs, ys: self.ys, cells: self.cells, order: self.order }, self.checks)
    }
}

/// Once reading stops on an error, later lines change nothing.
proof fn lemma_read_lines_stop(cfg: Config, lines: Seq<Seq<u8>>, first: nat, m: int)
    requires
        0 <= m <= lines.len(),
        read_lines(cfg, lines.take(m), first).1 is Some,
    ensures
        read_lines(cfg, lines, first) == read_lines(cfg, lines.take(m), first),
    decreases lines.len() - m,
{
    if m < lines.len() {
        let t = lines.take(m + 1);
        assert(t.drop_last() =~= lines.take(m));
        lemma_read_lines_stop(cfg, lines, first, m + 1);
    } else {
        assert(lines.take(m) =~= lines);
    }
}

/// The run being read grows by at most one line per line read.
proof fn lemma_feed_count(cfg: Config, st: StateView, lineno: nat, line: Seq<u8>)
    requires
        feed_spec(cfg, st, lineno, line) is Ok,
    ensures
        run_count(feed_spec(cfg, st, lineno, line)->Ok_0) <= run_count(st) + 1,
{
}

/// Cross-tabulate `raw` as `cfg` says.
#[verifier::spinoff_prover]
pub fn crosstab(raw: &[u8], cfg: &Config) -> (t: Tabulation)
    requires
        config_wf(*cfg),
    ensures
        tabulation_view(t) == crosstab_spec(raw@, *cfg),
        t.table matches Ok(table) ==> table_inv(table@) && index_of_cells(table@.cells, table.order@),
{
    let body: &[u8] = if raw.len() > 0 && raw[raw.len() - 1] == 10 {
        &raw[0..raw.len() - 1]
    } else {
        raw
    };
    proof {
        assert(body@ =~= body_of(raw@));
    }
    if body.len() == 0 {
        let t = Tabulation {
            table: Ok(Table { xs: Vec::new(), ys: Vec::new(), cells: Vec::new(), order: Vec::new() }),
            numeric_values: Vec::new(),
        };
        proof {
            let tv = tabulation_view(t);
            assert(tv.0->Ok_0.xs =~= Seq::<Seq<u8>>::empty());
            assert(tv.0->Ok_0.ys =~= Seq::<Seq<u8>>::empty());
            assert(tv.0->Ok_0.cells =~= Seq::<CellView>::empty());
            assert(tv.1 =~= Seq::<(nat, Seq<u8>)>::empty());
        }
        return t;
    }
    let mut spans: Vec<(usize, usize)> = Vec::new();
    split_fields(body, 10, &mut spans);
    let ghost all = split_on(body@, 10);
    proof {
        lemma_split_on_nonempty(body@, 10);
    }
    let skip: usize = if cfg.header_in {
        1
    } else {
        0
    };
    let ghost rest = all.skip(skip as int);
    let ghost order = reading_order(*cfg, raw@);
    let total = spans.len();
    let n = total - skip;
    let mut positions: Vec<usize> = Vec::new();
    if cfg.sort {
        let mut keys: Vec<(Vec<u8>, Vec<u8>)> = Vec::new();
        let mut i: usize = 0;
        while i < n
            invariant
                total == spans@.len(),
                n == total - skip,
                skip <= total,
                spans_cover(body@, spans@, all),
                rest == all.skip(skip as int),
                config_wf(*cfg),
                i <= n,
                keys_view(keys@) == rest.take(i as int).map_values(|l: Seq<u8>| line_key(*cfg, l)),
            decreases n - i,
        {
            let (s, e) = spans[skip + i];
            let k = key(&body[s..e], cfg);
            let ghost before = keys@;
            keys.push(k);
            proof {
                assert(body@.subrange(s as int, e as int) == rest[i as int]);
                assert(keys_view(keys@) =~= keys_view(before).push((k.0@, k.1@)));
                assert(rest.take(i + 1) =~= rest.take(i as int).push(rest[i as int]));
                assert(rest.take(i + 1).map_values(|l: Seq<u8>| line_key(*cfg, l)) =~= rest.take(
                    i as int,
                ).map_values(|l: Seq<u8>| line_key(*cfg, l)).push(line_key(*cfg, rest[i as int])));
            }
            i = i + 1;
        }
        proof {
            assert(rest.take(n as int) =~= rest);
        }
        positions = key_order_of(&keys);
    }
    proof {
        if cfg.sort {
            assert(order =~= Seq::new(rest.len(), |k: int| rest[positions@[k] as int]));
        } else {
            assert(order == rest);
        }
    }
    let mut st = RunState::new();
    let mut k: usize = 0;
    while k < n
        invariant
            total == spans@.len(),
            n == total - skip,
            skip <= total,
            skip as nat == skip_of(*cfg),
            spans_cover(body@, spans@, all),
            rest == all.skip(skip as int),
            order.len() == n,
            body@ == body_of(raw@),
            body@.len() > 0,
            order == reading_order(*cfg, raw@),
            cfg.sort ==> positions@.len() == n && forall|j: int| 0 <= j < n ==> (#[trigger] positions@[j]) < n && order[j] == rest[positions@[j] as int],
            !cfg.sort ==> order == rest,
            config_wf(*cfg),
            k <= n,
            read_lines(*cfg, order.take(k as int), skip as nat) == (st@, None::<CrosstabError>),
            state_inv(st@),
            st.indexed(),
            run_count(st@) <= k,
        decreases n - k,
    {
        let pos = if cfg.sort {
            positions[k]
        } else {
            k
        };
        let (s, e) = spans[skip + pos];
        let line = &body[s..e];
        proof {
            assert(line@ == order[k as int]);
            let t = order.take(k + 1);
            assert(t.drop_last() =~= order.take(k as int));
            assert(t.last() == order[k as int]);
            assert(skip + t.len() - 1 == skip + k);
        }
        let ghost before = st@;
        match st.feed(cfg, k + skip, line) {
            Ok(()) => {
                proof {
                    lemma_feed_count(*cfg, before, (k + skip) as nat, line@);
                }
            },
            Err(e) => {
                proof {
                    lemma_read_lines_stop(*cfg, order, skip as nat, (k + 1) as int);
                }
                let numeric_values = st.into_numeric_values();
                return Tabulation { table: Err(e), numeric_values };
            },
        }
        k = k + 1;
    }
    proof {
        assert(order.take(n as int) =~= order);
    }
    st.finish();
    let (table, numeric_values) = st.into_table();
    Tabulation { table: Ok(table), numeric_values }
}

// ---------------------------------------------------------------------
// Printing the table
// ---------------------------------------------------------------------

/// The header line without its newline: a separator and a label for each
/// column (the corner cell is empty).
pub open spec fn header_spec(d: u8, ys: Seq<Seq<u8>>) -> Seq<u8>
    decreases ys.len(),
{
    if ys.len() == 0 {
        Seq::empty()
    } else {
        header_spec(d, ys.drop_last()).push(d) + ys.last()
    }
}

/// The text of the cell at row `x`, column `y`: the filler where no cell has
/// these labels, the caller's text for a numeric cell (`nums` is indexed like
/// the cells), and the cell's own text otherwise.
pub open spec fn cell_text(
    cfg: Config,
    t: TableView,
    nums: Seq<Seq<u8>>,
    x: Seq<u8>,
    y: Seq<u8>,
) -> Seq<u8> {
    if has_cell(t.cells, x, y) {
        let i = cell_index(t.cells, x, y);
        if t.cells[i].acc is Nums {
            nums[i]
        } else {
            render_spec(t.cells[i].acc, cfg.collapse_delim)
        }
    } else {
        cfg.filler@
    }
}

/// The cells of row `x` for columns `ys`, each after a separator.
pub open spec fn row_cells(
    cfg: Config,
    t: TableView,
    nums: Seq<Seq<u8>>,
    x: Seq<u8>,
    ys: Seq<Seq<u8>>,
) -> Seq<u8>
    decreases ys.len(),
{
    if ys.len() == 0 {
        Seq::empty()
    } else {
        row_cells(cfg, t, nums, x, ys.drop_last()).push(cfg.delim) + cell_text(
            cfg,
            t,
            nums,
            x,
            ys.last(),
        )
    }
}

/// The lines of rows `xs`: the row label, then its cells, then a newline.
pub open spec fn rows_spec(cfg: Config, t: TableView, nums: Seq<Seq<u8>>, xs: Seq<Seq<u8>>) -> Seq<
    u8,
>
    decreases xs.len(),
{
    if xs.len() == 0 {
        Seq::empty()
    } else {
        rows_spec(cfg, t, nums, xs.drop_last()) + xs.last() + row_cells(cfg, t, nums, xs.last(), t.ys).push(10)
    }
}

/// The printed table: the header line, then one line per row.
pub open spec fn emit_spec(cfg: Config, t: TableView, nums: Seq<Seq<u8>>) -> Seq<u8> {
    header_spec(cfg.delim, t.ys).push(10) + rows_spec(cfg, t, nums, t.xs)
}

/// With distinct labels, the cell found is the cell meant.
proof fn lemma_cell_index(cells: Seq<CellView>, i: int)
    requires
        cells_distinct(cells),
        0 <= i < cells.len(),
    ensures
        has_cell(cells, cells[i].x, cells[i].y),
        cell_index(cells, cells[i].x, cells[i].y) == i,
{
    assert(has_cell(cells, cells[i].x, cells[i].y));
    let j = cell_index(cells, cells[i].x, cells[i].y);
    if j < i {
        assert(!(cells[j].x == cells[i].x && cells[j].y == cells[i].y));
    } else if j > i {
        assert(!(cells[i].x == cells[j].x && cells[i].y == cells[j].y));
    }
}

/// Print `table`; `numeric_text[i]` is the text of cell `i` when it is numeric.
pub fn emit(cfg: &Config, table: &Table, numeric_text: &Vec<Vec<u8>>) -> (out: Vec<u8>)
    requires
        table_inv(table@),
        index_of_cells(table@.cells, table.order@),
        numeric_text@.len() == table.cells@.len(),
    ensures
        out@ == emit_spec(*cfg, table@, views(numeric_text@)),
{
    let ghost t = table@;
    let ghost nums = views(numeric_text@);
    let mut out: Vec<u8> = Vec::new();
    let mut j: usize = 0;
    while j < table.ys.len()
        invariant
            t == table@,
            j <= t.ys.len(),
            out@ == header_spec(cfg.delim, t.ys.take(j as int)),
        decreases t.ys.len() - j,
    {
        out.push(cfg.delim);
        push_bytes(&mut out, table.ys[j].as_slice());
        proof {
            let s = t.ys.take(j + 1);
            assert(s.drop_last() =~= t.ys.take(j as int));
            assert(s.last() == t.ys[j as int]);
        }
        j = j + 1;
    }
    out.push(10);
    proof {
        assert(t.ys.take(t.ys.len() as int) =~= t.ys);
        assert(rows_spec(*cfg, t, nums, t.xs.take(0)) =~= Seq::<u8>::empty());
    }
    let ghost header = out@;
    let mut i: usize = 0;
    while i < table.xs.len()
        invariant
            t == table@,
            nums == views(numeric_text@),
            numeric_text@.len() == table.cells@.len(),
            table_inv(t),
            index_of_cells(t.cells, table.order@),
            i <= t.xs.len(),
            header == header_spec(cfg.delim, t.ys).push(10),
            out@ == header + rows_spec(*cfg, t, nums, t.xs.take(i as int)),
        decreases t.xs.len() - i,
    {
        let x = table.xs[i].as_slice();
        push_bytes(&mut out, x);
        let ghost row_start = out@;
        let mut j: usize = 0;
        proof {
            assert(t.ys.take(0) =~= Seq::<Seq<u8>>::empty());
        }
        while j < table.ys.len()
            invariant
                t == table@,
                nums == views(numeric_text@),
                numeric_text@.len() == table.cells@.len(),
                table_inv(t),
                index_of_cells(t.cells, table.order@),
            index_of_cells(t.cells, table.order@),
                i < t.xs.len(),
                x@ == t.xs[i as int],
                j <= t.ys.len(),
                out@ == row_start + row_cells(*cfg, t, nums, x@, t.ys.take(j as int)),
            decreases t.ys.len() - j,
        {
            let y = table.ys[j].as_slice();
            let ghost before = out@;
            out.push(cfg.delim);
            match find_cell(&table.cells, &table.order, x, y) {
                Some(ci) => {
                    proof {
                        lemma_cell_index(t.cells, ci as int);
                    }
                    match &table.cells[ci].acc {
                        Acc::Nums { .. } => {
                            push_bytes(&mut out, numeric_text[ci].as_slice());
                        },
                        acc => {
                            proof {
                                assert(acc_renderable(acc@));
                            }
                            acc.render(cfg.collapse_delim, &mut out);
                        },
                    }
                },
                None => {
                    push_bytes(&mut out, cfg.filler.as_slice());
                },
            }
            proof {
                let s = t.ys.take(j + 1);
                assert(s.drop_last() =~= t.ys.take(j as int));
                assert(s.last() == t.ys[j as int]);
                assert(out@ =~= row_start + row_cells(*cfg, t, nums, x@, s));
            }
            j = j + 1;
        }
        out.push(10);
        proof {
            assert(t.ys.take(t.ys.len() as int) =~= t.ys);
            let s = t.xs.take(i + 1);
            assert(s.drop_last() =~= t.xs.take(i as int));
            assert(s.last() == t.xs[i as int]);
            assert(out@ =~= header + rows_spec(*cfg, t, nums, s));
        }
        i = i + 1;
    }
    proof {
        assert(t.xs.take(t.xs.len() as int) =~= t.xs);
    }
    out
}

} // verus!
