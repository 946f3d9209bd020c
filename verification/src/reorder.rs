//! With `sort`, the table does not depend on the order of the input lines
//! when its cells count lines or show their distinct values.
use vstd::prelude::*;

use crate::laws::{
    acc_of, first_with_key, holds_first_run, input_lines, is_short, labels_read,
    law_first_run_fills_cell, law_labels, law_sort_aggregates_whole_input, law_unique_values,
    lemma_count_le, lemma_read_lines_refused, lemma_split_on_len, lines_read, lines_with_key,
    read_key, run_len,
};
use crate::ops::{render_spec, AccView, Op};
use crate::sort::{key_order, lemma_key_order_exists, line_key};
use crate::table::{
    body_of, cell_index, cell_text, config_wf, crosstab_spec, emit_spec, has_cell, reading_order,
    row_cells, rows_spec, skip_of, TableView,
};
use crate::text::{
    fields_of, lemma_lt_asymmetric, lemma_lt_irreflexive, seq_lt, sorted_set_of, split_on,
    strictly_sorted,
};
use crate::cells::values_of;
use crate::Config;

verus! {


/// Strictly sorted lists with the same elements are equal.
#[verifier::spinoff_prover]
#[verifier::rlimit(30)]
proof fn lemma_sorted_same_set(a: Seq<Seq<u8>>, b: Seq<Seq<u8>>)
    requires
        strictly_sorted(a),
        strictly_sorted(b),
        a.to_set() == b.to_set(),
    ensures
        a == b,
    decreases a.len(),
{
    if a.len() == 0 {
        if b.len() > 0 {
            assert(b.to_set().contains(b[0]));
            assert(a.to_set().contains(b[0]));
        }
        assert(a =~= b);
    } else {
        assert(a.to_set().contains(a[0]));
        assert(b.to_set().contains(a[0]));
        let j = choose|j: int| 0 <= j < b.len() && b[j] == a[0];
        assert(b.to_set().contains(b[0]));
        assert(a.to_set().contains(b[0]));
        let i = choose|i: int| 0 <= i < a.len() && a[i] == b[0];
        if j > 0 {
            assert(seq_lt(b[0], b[j]));
            if i > 0 {
                assert(seq_lt(a[0], a[i]));
                lemma_lt_asymmetric(a[0], a[i]);
            } else {
                lemma_lt_irreflexive(a[0]);
            }
        }
        assert(a[0] == b[0]);
        let a2 = a.drop_first();
        let b2 = b.drop_first();
        assert forall|x: Seq<u8>| a2.to_set().contains(x) implies b2.to_set().contains(x) by {
            let k = choose|k: int| 0 <= k < a2.len() && a2[k] == x;
            assert(a[k + 1] == x);
            assert(seq_lt(a[0], a[k + 1]));
            lemma_lt_irreflexive(x);
            assert(a.to_set().contains(x));
            let m = choose|m: int| 0 <= m < b.len() && b[m] == x;
            assert(m != 0);
            assert(b2[m - 1] == x);
        }
        assert forall|x: Seq<u8>| b2.to_set().contains(x) implies a2.to_set().contains(x) by {
            let k = choose|k: int| 0 <= k < b2.len() && b2[k] == x;
            assert(b[k + 1] == x);
            assert(seq_lt(b[0], b[k + 1]));
            lemma_lt_irreflexive(x);
            assert(b.to_set().contains(x));
            let m = choose|m: int| 0 <= m < a.len() && a[m] == x;
            assert(m != 0);
            assert(a2[m - 1] == x);
        }
        assert(a2.to_set() =~= b2.to_set());
        assert forall|p: int, q: int| 0 <= p < q < a2.len() implies seq_lt(
            #[trigger] a2[p],
            #[trigger] a2[q],
        ) by {
            assert(a2[p] == a[p + 1] && a2[q] == a[q + 1]);
        }
        assert forall|p: int, q: int| 0 <= p < q < b2.len() implies seq_lt(
            #[trigger] b2[p],
            #[trigger] b2[q],
        ) by {
            assert(b2[p] == b[p + 1] && b2[q] == b[q + 1]);
        }
        lemma_sorted_same_set(a2, b2);
        assert forall|k: int| 0 <= k < a.len() implies a[k] == b[k] by {
            if k > 0 {
                assert(a[k] == a2[k - 1] && b[k] == b2[k - 1]);
            }
        }
        assert(a =~= b);
    }
}

/// A label is read exactly when some line has it in field `idx1`.
proof fn lemma_labels_read_contains(lines: Seq<Seq<u8>>, idx1: int, d: u8, v: Seq<u8>)
    ensures
        labels_read(lines, idx1, d).contains(v) <==> exists|k: int|
            0 <= k < lines.len() && fields_of(#[trigger] lines[k], d)[idx1 - 1] == v,
    decreases lines.len(),
{
    if lines.len() > 0 {
        let p = lines.drop_last();
        lemma_labels_read_contains(p, idx1, d, v);
        if labels_read(p, idx1, d).contains(v) {
            let k = choose|k: int| 0 <= k < p.len() && fields_of(#[trigger] p[k], d)[idx1 - 1] == v;
            assert(lines[k] == p[k]);
        }
        if exists|k: int| 0 <= k < lines.len() && fields_of(#[trigger] lines[k], d)[idx1 - 1] == v {
            let k = choose|k: int|
                0 <= k < lines.len() && fields_of(#[trigger] lines[k], d)[idx1 - 1] == v;
            if k < p.len() {
                assert(p[k] == lines[k]);
            }
        }
    }
}

/// Lines with the same elements have the same labels.
proof fn lemma_labels_read_same(a: Seq<Seq<u8>>, b: Seq<Seq<u8>>, idx1: int, d: u8)
    requires
        a.to_set() == b.to_set(),
    ensures
        labels_read(a, idx1, d) == labels_read(b, idx1, d),
{
    assert forall|v: Seq<u8>| labels_read(a, idx1, d).contains(v) <==> labels_read(
        b,
        idx1,
        d,
    ).contains(v) by {
        lemma_labels_read_contains(a, idx1, d, v);
        lemma_labels_read_contains(b, idx1, d, v);
        if labels_read(a, idx1, d).contains(v) {
            let k = choose|k: int| 0 <= k < a.len() && fields_of(#[trigger] a[k], d)[idx1 - 1] == v;
            assert(a.to_set().contains(a[k]));
            let m = choose|m: int| 0 <= m < b.len() && b[m] == a[k];
            assert(fields_of(b[m], d)[idx1 - 1] == v);
        }
        if labels_read(b, idx1, d).contains(v) {
            let k = choose|k: int| 0 <= k < b.len() && fields_of(#[trigger] b[k], d)[idx1 - 1] == v;
            assert(b.to_set().contains(b[k]));
            let m = choose|m: int| 0 <= m < a.len() && a[m] == b[k];
            assert(fields_of(a[m], d)[idx1 - 1] == v);
        }
    }
    assert(labels_read(a, idx1, d) =~= labels_read(b, idx1, d));
}

/// How often a line occurs among the lines of key `k`.
proof fn lemma_lines_with_key_count(
    cfg: Config,
    lines: Seq<Seq<u8>>,
    k: (Seq<u8>, Seq<u8>),
    l: Seq<u8>,
)
    ensures
        lines_with_key(cfg, lines, k).to_multiset().count(l) == if read_key(cfg, l) == k {
            lines.to_multiset().count(l)
        } else {
            0
        },
    decreases lines.len(),
{
    broadcast use vstd::seq_lib::group_to_multiset_ensures;

    if lines.len() == 0 {
        assert(!lines.contains(l));
        assert(!lines_with_key(cfg, lines, k).contains(l));
    } else {
        let p = lines.drop_last();
        lemma_lines_with_key_count(cfg, p, k, l);
        assert(lines =~= p.push(lines.last()));
    }
}

/// Whether the cells of `cfg` ignore the order of their lines: they count
/// lines, or show their distinct values.
pub open spec fn order_free(cfg: Config) -> bool {
    match cfg.agg {
        None => true,
        Some((op, _)) => op == Op::Count || op == Op::Unique || op == Op::Countunique,
    }
}

proof fn lemma_acc_of_order_free(cfg: Config, seg: Seq<Seq<u8>>)
    requires
        order_free(cfg),
    ensures
        (cfg.agg is None || cfg.agg->Some_0.0 == Op::Count) ==> acc_of(cfg, seg) == AccView::Count(
            seg.len(),
        ),
        (cfg.agg is Some && cfg.agg->Some_0.0 != Op::Count) ==> acc_of(cfg, seg) == AccView::Strs(
            cfg.agg->Some_0.0,
            values_of(cfg, seg),
        ),
    decreases seg.len(),
{
    if seg.len() > 0 {
        lemma_acc_of_order_free(cfg, seg.drop_last());
        assert(values_of(cfg, seg) =~= values_of(cfg, seg.drop_last()).push(
            fields_of(seg.last(), cfg.delim)[cfg.agg->Some_0.1 - 1],
        ));
    } else {
        assert(values_of(cfg, seg) =~= Seq::<Seq<u8>>::empty());
    }
}

/// Lines that are the same up to order give cells with the same text.
proof fn lemma_render_order_free(cfg: Config, s1: Seq<Seq<u8>>, s2: Seq<Seq<u8>>)
    requires
        order_free(cfg),
        s1.to_multiset() == s2.to_multiset(),
    ensures
        render_spec(acc_of(cfg, s1), cfg.collapse_delim) == render_spec(
            acc_of(cfg, s2),
            cfg.collapse_delim,
        ),
{
    broadcast use vstd::seq_lib::group_to_multiset_ensures;

    lemma_acc_of_order_free(cfg, s1);
    lemma_acc_of_order_free(cfg, s2);
    vstd::seq_lib::to_multiset_len(s1);
    vstd::seq_lib::to_multiset_len(s2);
    assert(s1.len() == s2.len());
    if cfg.agg is Some && cfg.agg->Some_0.0 != Op::Count {
        let v1 = values_of(cfg, s1);
        let v2 = values_of(cfg, s2);
        assert forall|v: Seq<u8>| v1.to_set().contains(v) implies v2.to_set().contains(v) by {
            let k = choose|k: int| 0 <= k < v1.len() && v1[k] == v;
            assert(s1.contains(s1[k]));
            assert(s1.to_multiset().count(s1[k]) > 0);
            assert(s2.to_multiset().count(s1[k]) > 0);
            assert(s2.contains(s1[k]));
            let m = choose|m: int| 0 <= m < s2.len() && s2[m] == s1[k];
            assert(v2[m] == v);
        }
        assert forall|v: Seq<u8>| v2.to_set().contains(v) implies v1.to_set().contains(v) by {
            let k = choose|k: int| 0 <= k < v2.len() && v2[k] == v;
            assert(s2.contains(s2[k]));
            assert(s2.to_multiset().count(s2[k]) > 0);
            assert(s1.to_multiset().count(s2[k]) > 0);
            assert(s1.contains(s2[k]));
            let m = choose|m: int| 0 <= m < s1.len() && s1[m] == s2[k];
            assert(v1[m] == v);
        }
        assert(v1.to_set() =~= v2.to_set());
        law_unique_values(v1);
        law_unique_values(v2);
        lemma_sorted_same_set(sorted_set_of(v1), sorted_set_of(v2));
    }
}

/// Where every cell has the same text in two tables, a row's cells print
/// the same.
proof fn lemma_row_cells_same(
    cfg: Config,
    t1: TableView,
    t2: TableView,
    nums: Seq<Seq<u8>>,
    x: Seq<u8>,
    ys: Seq<Seq<u8>>,
)
    requires
        forall|x: Seq<u8>, y: Seq<u8>|
            #[trigger] cell_text(cfg, t1, nums, x, y) == cell_text(cfg, t2, nums, x, y),
    ensures
        row_cells(cfg, t1, nums, x, ys) == row_cells(cfg, t2, nums, x, ys),
    decreases ys.len(),
{
    if ys.len() > 0 {
        lemma_row_cells_same(cfg, t1, t2, nums, x, ys.drop_last());
        assert(cell_text(cfg, t1, nums, x, ys.last()) == cell_text(cfg, t2, nums, x, ys.last()));
    }
}

/// Tables with the same column labels and the same text in every cell print
/// the same rows.
proof fn lemma_rows_same(
    cfg: Config,
    t1: TableView,
    t2: TableView,
    nums: Seq<Seq<u8>>,
    xs: Seq<Seq<u8>>,
)
    requires
        t1.ys == t2.ys,
        forall|x: Seq<u8>, y: Seq<u8>|
            #[trigger] cell_text(cfg, t1, nums, x, y) == cell_text(cfg, t2, nums, x, y),
    ensures
        rows_spec(cfg, t1, nums, xs) == rows_spec(cfg, t2, nums, xs),
    decreases xs.len(),
{
    if xs.len() > 0 {
        lemma_rows_same(cfg, t1, t2, nums, xs.drop_last());
        lemma_row_cells_same(cfg, t1, t2, nums, xs.last(), t1.ys);
    }
}

/// With `sort`, the lines read are the input lines, in another order.
proof fn lemma_reading_same_lines(raw: Seq<u8>, cfg: Config)
    requires
        config_wf(cfg),
        cfg.sort,
        raw.len() <= usize::MAX,
    ensures
        lines_read(cfg, raw).to_set() == input_lines(cfg, raw).to_set(),
{
    if body_of(raw).len() > 0 {
        let body = body_of(raw);
        let rest = split_on(body, 10).skip(skip_of(cfg) as int);
        assert(rest == input_lines(cfg, raw));
        let keys = rest.map_values(|l: Seq<u8>| line_key(cfg, l));
        lemma_split_on_len(body, 10);
        lemma_count_le(body, 10);
        lemma_key_order_exists(keys);
        let pk = key_order(keys);
        let lines = reading_order(cfg, raw);
        assert(lines == lines_read(cfg, raw));
        assert forall|l: Seq<u8>| lines.to_set().contains(l) implies rest.to_set().contains(l) by {
            let j = choose|j: int| 0 <= j < lines.len() && lines[j] == l;
            assert(pk[j] < keys.len());
            assert(lines[j] == rest[pk[j] as int]);
        }
        assert forall|l: Seq<u8>| rest.to_set().contains(l) implies lines.to_set().contains(l) by {
            let a = choose|a: int| 0 <= a < rest.len() && rest[a] == l;
            assert(pk.contains(a as usize));
            let j = choose|j: int| 0 <= j < pk.len() && pk[j] == a as usize;
            assert(lines[j] == rest[pk[j] as int]);
        }
        assert(lines.to_set() =~= rest.to_set());
    } else {
        assert(lines_read(cfg, raw).to_set() =~= input_lines(cfg, raw).to_set());
    }
}

/// With `sort`, a table is made exactly when no input line is short.
proof fn lemma_ok_iff_no_short(raw: Seq<u8>, cfg: Config)
    requires
        config_wf(cfg),
        cfg.sort,
        raw.len() <= usize::MAX,
    ensures
        crosstab_spec(raw, cfg).0 is Ok <==> forall|l: Seq<u8>|
            #[trigger] input_lines(cfg, raw).to_set().contains(l) ==> !is_short(cfg, l),
{
    lemma_reading_same_lines(raw, cfg);
    let ls = input_lines(cfg, raw).to_set();
    if body_of(raw).len() > 0 {
        let lines = reading_order(cfg, raw);
        assert(lines == lines_read(cfg, raw));
        lemma_read_lines_refused(cfg, lines, skip_of(cfg));
        if exists|k: int| 0 <= k < lines.len() && is_short(cfg, #[trigger] lines[k]) {
            let k = choose|k: int| 0 <= k < lines.len() && is_short(cfg, #[trigger] lines[k]);
            assert(lines.to_set().contains(lines[k]));
            assert(ls.contains(lines[k]));
        }
        if exists|l: Seq<u8>| #[trigger] ls.contains(l) && is_short(cfg, l) {
            let l = choose|l: Seq<u8>| #[trigger] ls.contains(l) && is_short(cfg, l);
            assert(lines.to_set().contains(l));
            let k = choose|k: int| 0 <= k < lines.len() && lines[k] == l;
            assert(is_short(cfg, lines[k]));
        }
    } else {
        assert(ls =~= Set::<Seq<u8>>::empty());
    }
}

/// In a table made with `sort`, a cell has labels `x`, `y` exactly when some
/// input line has that key, and it aggregates those lines.
proof fn lemma_sorted_cell(raw: Seq<u8>, cfg: Config, x: Seq<u8>, y: Seq<u8>)
    requires
        config_wf(cfg),
        cfg.sort,
        raw.len() <= usize::MAX,
        crosstab_spec(raw, cfg).0 is Ok,
    ensures
        ({
            let t = crosstab_spec(raw, cfg).0->Ok_0;
            let ls = input_lines(cfg, raw);
            &&& has_cell(t.cells, x, y) <==> exists|a: int|
                0 <= a < ls.len() && read_key(cfg, #[trigger] ls[a]) == (x, y)
            &&& has_cell(t.cells, x, y) ==> t.cells[cell_index(t.cells, x, y)].acc == acc_of(
                cfg,
                lines_with_key(cfg, ls, (x, y)),
            )
        }),
{
    law_sort_aggregates_whole_input(raw, cfg);
    law_first_run_fills_cell(raw, cfg);
    lemma_reading_same_lines(raw, cfg);
    let t = crosstab_spec(raw, cfg).0->Ok_0;
    let ls = input_lines(cfg, raw);
    if has_cell(t.cells, x, y) {
        let i = cell_index(t.cells, x, y);
        assert(t.cells[i].x == x && t.cells[i].y == y);
        let lr = lines_read(cfg, raw);
        assert(holds_first_run(cfg, lr, t.cells[i], lr.len() as int));
        let f = choose|f: int|
            first_with_key(cfg, lr, (x, y), f) && f + run_len(cfg, lr, f) <= lr.len()
                && t.cells[i].acc == acc_of(
                cfg,
                lr.subrange(f, f + run_len(cfg, lr, f)),
            );
        assert(lr.to_set().contains(lr[f]));
        assert(ls.to_set().contains(lr[f]));
        let a = choose|a: int| 0 <= a < ls.len() && ls[a] == lr[f];
        assert(read_key(cfg, ls[a]) == (x, y));
    }
}

/// With `sort`, the order of the input lines does not matter when cells
/// count lines or show their distinct values (`count`, `unique`,
/// `countunique`): inputs whose lines are the same up to order are both
/// refused, or both give the same labels and print the same table (the text
/// given for numeric cells is never used: these tables have none).
pub proof fn law_sort_ignores_line_order(
    raw1: Seq<u8>,
    raw2: Seq<u8>,
    cfg: Config,
    nums: Seq<Seq<u8>>,
)
    requires
        config_wf(cfg),
        cfg.sort,
        order_free(cfg),
        raw1.len() <= usize::MAX,
        raw2.len() <= usize::MAX,
        input_lines(cfg, raw1).to_multiset() == input_lines(cfg, raw2).to_multiset(),
    ensures
        crosstab_spec(raw1, cfg).0 is Ok <==> crosstab_spec(raw2, cfg).0 is Ok,
        crosstab_spec(raw1, cfg).0 matches Ok(t1) ==> (crosstab_spec(raw2, cfg).0 matches Ok(t2)
            && t1.xs == t2.xs && t1.ys == t2.ys && emit_spec(cfg, t1, nums) == emit_spec(
            cfg,
            t2,
            nums,
        )),
{
    broadcast use vstd::seq_lib::group_to_multiset_ensures;

    let l1 = input_lines(cfg, raw1);
    let l2 = input_lines(cfg, raw2);
    assert forall|l: Seq<u8>| l1.to_set().contains(l) <==> l2.to_set().contains(l) by {
        assert(l1.contains(l) <==> l1.to_multiset().count(l) > 0);
        assert(l2.contains(l) <==> l2.to_multiset().count(l) > 0);
    }
    assert(l1.to_set() =~= l2.to_set());
    lemma_ok_iff_no_short(raw1, cfg);
    lemma_ok_iff_no_short(raw2, cfg);
    if crosstab_spec(raw1, cfg).0 is Ok {
        assert(crosstab_spec(raw2, cfg).0 is Ok);
        let t1 = crosstab_spec(raw1, cfg).0->Ok_0;
        let t2 = crosstab_spec(raw2, cfg).0->Ok_0;
        law_labels(raw1, cfg);
        law_labels(raw2, cfg);
        lemma_reading_same_lines(raw1, cfg);
        lemma_reading_same_lines(raw2, cfg);
        lemma_labels_read_same(lines_read(cfg, raw1), lines_read(cfg, raw2), cfg.x as int, cfg.delim);
        lemma_labels_read_same(lines_read(cfg, raw1), lines_read(cfg, raw2), cfg.y as int, cfg.delim);
        lemma_sorted_same_set(t1.xs, t2.xs);
        lemma_sorted_same_set(t1.ys, t2.ys);
        assert forall|x: Seq<u8>, y: Seq<u8>| #[trigger] cell_text(cfg, t1, nums, x, y) == cell_text(
            cfg,
            t2,
            nums,
            x,
            y,
        ) by {
            lemma_sorted_cell(raw1, cfg, x, y);
            lemma_sorted_cell(raw2, cfg, x, y);
            if exists|a: int| 0 <= a < l1.len() && read_key(cfg, #[trigger] l1[a]) == (x, y) {
                let a = choose|a: int| 0 <= a < l1.len() && read_key(cfg, #[trigger] l1[a]) == (x, y);
                assert(l1.to_set().contains(l1[a]));
                let m = choose|m: int| 0 <= m < l2.len() && l2[m] == l1[a];
                assert(read_key(cfg, l2[m]) == (x, y));
            }
            if exists|a: int| 0 <= a < l2.len() && read_key(cfg, #[trigger] l2[a]) == (x, y) {
                let a = choose|a: int| 0 <= a < l2.len() && read_key(cfg, #[trigger] l2[a]) == (x, y);
                assert(l2.to_set().contains(l2[a]));
                let m = choose|m: int| 0 <= m < l1.len() && l1[m] == l2[a];
                assert(read_key(cfg, l1[m]) == (x, y));
            }
            if has_cell(t1.cells, x, y) {
                let s1 = lines_with_key(cfg, l1, (x, y));
                let s2 = lines_with_key(cfg, l2, (x, y));
                assert forall|l: Seq<u8>| s1.to_multiset().count(l) == s2.to_multiset().count(l) by {
                    lemma_lines_with_key_count(cfg, l1, (x, y), l);
                    lemma_lines_with_key_count(cfg, l2, (x, y), l);
                }
                assert(s1.to_multiset() =~= s2.to_multiset());
                lemma_render_order_free(cfg, s1, s2);
                lemma_acc_of_order_free(cfg, s1);
                lemma_acc_of_order_free(cfg, s2);
            }
        }
        lemma_rows_same(cfg, t1, t2, nums, t1.xs);
    }
}

} // verus!
