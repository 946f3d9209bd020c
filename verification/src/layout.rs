//! The printed table read back: it splits at newlines into the header and
//! one line per row, and each line splits at the separator into its fields.
use vstd::prelude::*;

use crate::cells::law_join_splits_back;
use crate::ops::{join_spec, render_spec};
use crate::table::{cell_index, cell_text, emit_spec, has_cell, header_spec, row_cells, rows_spec, TableView};
use crate::text::split_on;
use crate::Config;

verus! {

/// The fields of the line of row `x`: its label, then the text of each cell.
pub open spec fn row_fields(cfg: Config, t: TableView, nums: Seq<Seq<u8>>, x: Seq<u8>) -> Seq<
    Seq<u8>,
> {
    seq![x] + Seq::new(t.ys.len(), |j: int| cell_text(cfg, t, nums, x, t.ys[j]))
}

/// A joined text holds a byte other than the delimiter only where a piece
/// holds it.
proof fn lemma_join_lacks(vs: Seq<Seq<u8>>, d: u8, b: u8)
    requires
        b != d,
        forall|i: int| 0 <= i < vs.len() ==> !(#[trigger] vs[i]).contains(b),
    ensures
        !join_spec(vs, d).contains(b),
    decreases vs.len(),
{
    if vs.len() > 1 {
        let p = vs.drop_last();
        assert forall|i: int| 0 <= i < p.len() implies !(#[trigger] p[i]).contains(b) by {
            assert(p[i] == vs[i]);
        }
        lemma_join_lacks(p, d, b);
        let j = join_spec(p, d);
        let s = j.push(d) + vs.last();
        assert(!vs[vs.len() - 1].contains(b));
        if s.contains(b) {
            let k = choose|k: int| 0 <= k < s.len() && s[k] == b;
            if k < j.len() {
                assert(j[k] == s[k]);
            } else if k > j.len() {
                assert(vs.last()[k - j.len() - 1] == s[k]);
            }
        }
    } else if vs.len() == 1 {
        assert(!vs[0].contains(b));
    }
}

proof fn lemma_header_joined(d: u8, ys: Seq<Seq<u8>>)
    ensures
        header_spec(d, ys) == join_spec(seq![Seq::<u8>::empty()] + ys, d),
    decreases ys.len(),
{
    let v = seq![Seq::<u8>::empty()] + ys;
    if ys.len() == 0 {
        assert(v =~= seq![Seq::<u8>::empty()]);
    } else {
        lemma_header_joined(d, ys.drop_last());
        assert(v.drop_last() =~= seq![Seq::<u8>::empty()] + ys.drop_last());
        assert(v.last() == ys.last());
    }
}

proof fn lemma_row_joined(cfg: Config, t: TableView, nums: Seq<Seq<u8>>, x: Seq<u8>, k: int)
    requires
        0 <= k <= t.ys.len(),
    ensures
        x + row_cells(cfg, t, nums, x, t.ys.take(k)) == join_spec(
            row_fields(cfg, t, nums, x).take(k + 1),
            cfg.delim,
        ),
    decreases k,
{
    let v = row_fields(cfg, t, nums, x).take(k + 1);
    if k == 0 {
        assert(t.ys.take(0) =~= Seq::<Seq<u8>>::empty());
        assert(v =~= seq![x]);
        assert(x + Seq::<u8>::empty() =~= x);
    } else {
        lemma_row_joined(cfg, t, nums, x, k - 1);
        let ys = t.ys.take(k);
        assert(ys.drop_last() =~= t.ys.take(k - 1));
        assert(ys.last() == t.ys[k - 1]);
        assert(v.drop_last() =~= row_fields(cfg, t, nums, x).take(k));
        assert(v.last() == cell_text(cfg, t, nums, x, t.ys[k - 1]));
        let a = x + row_cells(cfg, t, nums, x, t.ys.take(k - 1));
        assert(x + row_cells(cfg, t, nums, x, ys) =~= a.push(cfg.delim) + v.last());
    }
}

/// The lines of the table, each without its newline.
pub open spec fn table_lines(cfg: Config, t: TableView, nums: Seq<Seq<u8>>, n: int) -> Seq<Seq<u8>> {
    seq![header_spec(cfg.delim, t.ys)] + Seq::new(
        n as nat,
        |i: int| join_spec(row_fields(cfg, t, nums, t.xs[i]), cfg.delim),
    )
}

proof fn lemma_rows_joined(cfg: Config, t: TableView, nums: Seq<Seq<u8>>, n: int)
    requires
        0 <= n <= t.xs.len(),
    ensures
        header_spec(cfg.delim, t.ys).push(10) + rows_spec(cfg, t, nums, t.xs.take(n)) == join_spec(
            table_lines(cfg, t, nums, n) + seq![Seq::<u8>::empty()],
            10,
        ),
    decreases n,
{
    let h = header_spec(cfg.delim, t.ys);
    let l = table_lines(cfg, t, nums, n);
    let v = l + seq![Seq::<u8>::empty()];
    assert(v.drop_last() =~= l);
    assert(v.last() == Seq::<u8>::empty());
    if n == 0 {
        assert(l =~= seq![h]);
        assert(t.xs.take(0) =~= Seq::<Seq<u8>>::empty());
        assert(h.push(10) + Seq::<u8>::empty() =~= h.push(10));
        assert(l[0] == h);
        assert(join_spec(l, 10) == h);
        assert(join_spec(v, 10) == join_spec(l, 10).push(10) + Seq::<u8>::empty());
        assert(join_spec(v, 10) =~= h.push(10));
    } else {
        lemma_rows_joined(cfg, t, nums, n - 1);
        let l0 = table_lines(cfg, t, nums, n - 1);
        assert(l.drop_last() =~= l0);
        let x = t.xs[n - 1];
        let xs = t.xs.take(n);
        assert(xs.drop_last() =~= t.xs.take(n - 1));
        assert(xs.last() == x);
        lemma_row_joined(cfg, t, nums, x, t.ys.len() as int);
        assert(t.ys.take(t.ys.len() as int) =~= t.ys);
        assert(row_fields(cfg, t, nums, x).take(t.ys.len() as int + 1) =~= row_fields(cfg, t, nums, x));
        let r = join_spec(row_fields(cfg, t, nums, x), cfg.delim);
        assert(l.last() == r);
        let v0 = l0 + seq![Seq::<u8>::empty()];
        assert(v0.drop_last() =~= l0);
        assert(join_spec(v0, 10) =~= join_spec(l0, 10).push(10));
        assert(join_spec(v, 10) =~= join_spec(l, 10).push(10));
        assert(join_spec(l, 10) =~= join_spec(l0, 10).push(10) + r);
        assert(h.push(10) + rows_spec(cfg, t, nums, xs) =~= (h.push(10) + rows_spec(
            cfg,
            t,
            nums,
            t.xs.take(n - 1),
        )) + (x + row_cells(cfg, t, nums, x, t.ys)).push(10));
    }
}

/// The printed table splits back at newlines into the header line, one line
/// per row label, and nothing after the last newline; the header splits at
/// the separator into an empty corner and the column labels, and the line
/// of each row into its label and the text of its cell in each column, in
/// column order: the filler where no cell has that row and column, and a
/// counting or textual cell's own text where one has. (Where
/// no label or cell text holds the separator or a newline, and the
/// separator is not a newline.)
pub proof fn law_printed_table(cfg: Config, t: TableView, nums: Seq<Seq<u8>>)
    requires
        cfg.delim != 10,
        forall|i: int|
            0 <= i < t.xs.len() ==> !(#[trigger] t.xs[i]).contains(cfg.delim) && !t.xs[i].contains(
                10,
            ),
        forall|j: int|
            0 <= j < t.ys.len() ==> !(#[trigger] t.ys[j]).contains(cfg.delim) && !t.ys[j].contains(
                10,
            ),
        forall|i: int, j: int|
            0 <= i < t.xs.len() && 0 <= j < t.ys.len() ==> !(#[trigger] cell_text(
                cfg,
                t,
                nums,
                t.xs[i],
                t.ys[j],
            )).contains(cfg.delim) && !cell_text(cfg, t, nums, t.xs[i], t.ys[j]).contains(10),
    ensures
        ({
            let lines = split_on(emit_spec(cfg, t, nums), 10);
            &&& lines.len() == t.xs.len() + 2
            &&& lines.last() == Seq::<u8>::empty()
            &&& split_on(lines[0], cfg.delim) == seq![Seq::<u8>::empty()] + t.ys
            &&& forall|i: int|
                0 <= i < t.xs.len() ==> split_on(#[trigger] lines[i + 1], cfg.delim)
                    == row_fields(cfg, t, nums, t.xs[i])
            &&& forall|i: int, j: int|
                0 <= i < t.xs.len() && 0 <= j < t.ys.len() && !has_cell(t.cells, t.xs[i], t.ys[j])
                    ==> #[trigger] split_on(lines[i + 1], cfg.delim)[j + 1] == cfg.filler@
            &&& forall|i: int, j: int|
                0 <= i < t.xs.len() && 0 <= j < t.ys.len() && has_cell(t.cells, t.xs[i], t.ys[j])
                    && !(t.cells[cell_index(t.cells, t.xs[i], t.ys[j])].acc is Nums) ==> #[trigger] split_on(
                    lines[i + 1],
                    cfg.delim,
                )[j + 1] == render_spec(
                    t.cells[cell_index(t.cells, t.xs[i], t.ys[j])].acc,
                    cfg.collapse_delim,
                )
        }),
{
    let n = t.xs.len() as int;
    let d = cfg.delim;
    lemma_rows_joined(cfg, t, nums, n);
    assert(t.xs.take(n) =~= t.xs);
    let l = table_lines(cfg, t, nums, n);
    let v = l + seq![Seq::<u8>::empty()];
    let hv = seq![Seq::<u8>::empty()] + t.ys;
    lemma_header_joined(d, t.ys);
    assert forall|k: int| 0 <= k < hv.len() implies !(#[trigger] hv[k]).contains(d) && !hv[k].contains(
        10,
    ) by {
        if k > 0 {
            assert(hv[k] == t.ys[k - 1]);
        }
    }
    lemma_join_lacks(hv, d, 10);
    assert forall|k: int| 0 <= k < v.len() implies !(#[trigger] v[k]).contains(10) by {
        if k == 0 {
        } else if k <= n {
            let fs = row_fields(cfg, t, nums, t.xs[k - 1]);
            assert(v[k] == join_spec(fs, d));
            assert forall|k2: int| 0 <= k2 < fs.len() implies !(#[trigger] fs[k2]).contains(d)
                && !fs[k2].contains(10) by {
                if k2 > 0 {
                    assert(fs[k2] == cell_text(cfg, t, nums, t.xs[k - 1], t.ys[k2 - 1]));
                }
            }
            lemma_join_lacks(fs, d, 10);
        } else {
            assert(v[k] == Seq::<u8>::empty());
        }
    }
    law_join_splits_back(v, 10);
    assert(split_on(emit_spec(cfg, t, nums), 10) == v);
    law_join_splits_back(hv, d);
    assert(v[0] == header_spec(d, t.ys));
    assert forall|i: int| 0 <= i < n implies split_on(#[trigger] v[i + 1], d) == row_fields(
        cfg,
        t,
        nums,
        t.xs[i],
    ) by {
        let fs = row_fields(cfg, t, nums, t.xs[i]);
        assert(v[i + 1] == join_spec(fs, d));
        assert forall|k2: int| 0 <= k2 < fs.len() implies !(#[trigger] fs[k2]).contains(d)
            && !fs[k2].contains(10) by {
            if k2 > 0 {
                assert(fs[k2] == cell_text(cfg, t, nums, t.xs[i], t.ys[k2 - 1]));
            }
        }
        law_join_splits_back(fs, d);
    }
    assert forall|i: int, j: int|
        0 <= i < t.xs.len() && 0 <= j < t.ys.len() && !has_cell(t.cells, t.xs[i], t.ys[j])
            implies #[trigger] split_on(v[i + 1], d)[j + 1] == cfg.filler@ by {
        assert(split_on(v[i + 1], d) == row_fields(cfg, t, nums, t.xs[i]));
    }
    assert forall|i: int, j: int|
        0 <= i < t.xs.len() && 0 <= j < t.ys.len() && has_cell(t.cells, t.xs[i], t.ys[j]) && !(
        t.cells[cell_index(t.cells, t.xs[i], t.ys[j])].acc is Nums) implies #[trigger] split_on(
        v[i + 1],
        d,
    )[j + 1] == render_spec(t.cells[cell_index(t.cells, t.xs[i], t.ys[j])].acc, cfg.collapse_delim) by {
        assert(split_on(v[i + 1], d) == row_fields(cfg, t, nums, t.xs[i]));
    }
}

} // verus!
