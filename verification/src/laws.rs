//! Properties of the cross-tabulation as a whole.
use vstd::prelude::*;

use crate::ops::{join_spec, render_str_spec};
use crate::table::{
    body_of, cell_text, close_run, crosstab_spec, emit_spec, feed_spec, header_spec, need_of,
    read_lines, reading_order, rows_spec, skip_of, StateView, TableView, config_wf,
};
use crate::ops::AccView;
use crate::sort::{
    is_key_order, key_lt, key_order, lemma_key_lt, lemma_key_order_exists, line_key, pos_before,
};
use crate::table::{acc_filled, add_cell, has_cell, initial_state, op_of, start_run, state_inv};
use crate::ops::{acc_add, acc_bump, acc_new, acc_wf};
use crate::text::{
    lemma_lt_asymmetric, lemma_lt_irreflexive, lemma_lt_transitive,
    fields_of, lemma_split_on_none, lemma_split_on_nonempty, lemma_sorted_insert_sorted, sorted_insert, sorted_set_of,
    split_on, strictly_sorted,
};
use crate::{Config, CrosstabError};

verus! {

// ---------------------------------------------------------------------
// Fields
// ---------------------------------------------------------------------

/// How many times `d` occurs in `s`.
pub open spec fn count_of(s: Seq<u8>, d: u8) -> nat
    decreases s.len(),
{
    if s.len() == 0 {
        0
    } else {
        count_of(s.drop_last(), d) + if s.last() == d {
            1nat
        } else {
            0nat
        }
    }
}

pub(crate) proof fn lemma_split_on_len(s: Seq<u8>, d: u8)
    ensures
        split_on(s, d).len() == count_of(s, d) + 1,
    decreases s.len(),
{
    if s.len() > 0 {
        lemma_split_on_len(s.drop_last(), d);
    }
}

/// An empty line has no fields; any other line has one more field than it
/// has delimiters.
pub proof fn law_field_count(line: Seq<u8>, d: u8)
    ensures
        fields_of(line, d).len() == if line.len() == 0 {
            0
        } else {
            count_of(line, d) + 1
        },
{
    if line.len() > 0 {
        lemma_split_on_len(line, d);
    }
}

proof fn lemma_split_rejoin(s: Seq<u8>, d: u8)
    ensures
        join_spec(split_on(s, d), d) == s,
    decreases s.len(),
{
    if s.len() == 0 {
        assert(join_spec(split_on(s, d), d) =~= s);
    } else {
        let prev = split_on(s.drop_last(), d);
        lemma_split_rejoin(s.drop_last(), d);
        lemma_split_on_nonempty(s.drop_last(), d);
        let q = split_on(s, d);
        if s.last() == d {
            assert(q.drop_last() =~= prev);
            assert(join_spec(q, d) =~= s);
        } else {
            if prev.len() == 1 {
                assert(join_spec(q, d) =~= s);
            } else {
                assert(q.drop_last() =~= prev.drop_last());
                let x = join_spec(prev.drop_last(), d).push(d);
                assert(join_spec(prev, d) == x + prev.last());
                assert(join_spec(q, d) == x + prev.last().push(s.last()));
                assert(x + prev.last().push(s.last()) =~= (x + prev.last()).push(s.last()));
                assert(s.drop_last().push(s.last()) =~= s);
            }
        }
    }
}

/// Joining the fields of a non-empty line with the delimiter gives the line
/// back.
pub proof fn law_fields_rejoin(line: Seq<u8>, d: u8)
    requires
        line.len() > 0,
    ensures
        join_spec(fields_of(line, d), d) == line,
{
    lemma_split_rejoin(line, d);
}

// ---------------------------------------------------------------------
// Textual cells
// ---------------------------------------------------------------------

/// The values of a `unique` cell are sorted in byte order, each once, and are
/// exactly the distinct values collected.
pub proof fn law_unique_values(vals: Seq<Seq<u8>>)
    ensures
        strictly_sorted(sorted_set_of(vals)),
        sorted_set_of(vals).to_set() == vals.to_set(),
    decreases vals.len(),
{
    if vals.len() == 0 {
        assert(sorted_set_of(vals).to_set() =~= vals.to_set());
    } else {
        law_unique_values(vals.drop_last());
        lemma_sorted_insert_sorted(sorted_set_of(vals.drop_last()), vals.last());
        assert(vals =~= vals.drop_last().push(vals.last()));
        assert(vals.drop_last().push(vals.last()).to_set() =~= vals.drop_last().to_set().insert(
            vals.last(),
        )) by {
            broadcast use vstd::seq_lib::group_seq_properties;

        }
    }
}

// ---------------------------------------------------------------------
// Whole inputs
// ---------------------------------------------------------------------

/// The lines of an input that are read, in reading order: none for an empty
/// input.
pub open spec fn lines_read(cfg: Config, raw: Seq<u8>) -> Seq<Seq<u8>> {
    if body_of(raw).len() == 0 {
        Seq::empty()
    } else {
        reading_order(cfg, raw)
    }
}

/// A line lacks a field the configuration reads.
pub open spec fn is_short(cfg: Config, line: Seq<u8>) -> bool {
    fields_of(line, cfg.delim).len() < need_of(cfg)
}

/// An input that is empty or a lone newline gives the bare header line.
pub proof fn law_empty_input(raw: Seq<u8>, cfg: Config, nums: Seq<Seq<u8>>)
    requires
        body_of(raw).len() == 0,
    ensures
        crosstab_spec(raw, cfg).0 matches Ok(t) && emit_spec(cfg, t, nums) == seq![10u8],
{
    let t = TableView { xs: Seq::empty(), ys: Seq::empty(), cells: Seq::empty() };
    assert(header_spec(cfg.delim, t.ys) =~= Seq::<u8>::empty());
    assert(rows_spec(cfg, t, nums, t.xs) =~= Seq::<u8>::empty());
    assert(emit_spec(cfg, t, nums) =~= seq![10u8]);
}

pub(crate) proof fn lemma_read_lines_refused(cfg: Config, lines: Seq<Seq<u8>>, first: nat)
    ensures
        read_lines(cfg, lines, first).1 is Some <==> exists|k: int|
            0 <= k < lines.len() && is_short(cfg, #[trigger] lines[k]),
        read_lines(cfg, lines, first).1 matches Some(e) ==> exists|k: int|
            0 <= k < lines.len() && is_short(cfg, #[trigger] lines[k]) && (forall|j: int|
                0 <= j < k ==> !is_short(cfg, #[trigger] lines[j])) && e == (
            CrosstabError::ShortRow {
                need: need_of(cfg) as usize,
                line: (first + k + 1) as usize,
                got: fields_of(lines[k], cfg.delim).len() as usize,
            }),
    decreases lines.len(),
{
    if lines.len() > 0 {
        let p = lines.drop_last();
        lemma_read_lines_refused(cfg, p, first);
        let prev = read_lines(cfg, p, first);
        if prev.1 is Some {
            let k = choose|k: int|
                0 <= k < p.len() && is_short(cfg, #[trigger] p[k]) && (forall|j: int|
                    0 <= j < k ==> !is_short(cfg, #[trigger] p[j])) && prev.1 == Some(
                    CrosstabError::ShortRow {
                        need: need_of(cfg) as usize,
                        line: (first + k + 1) as usize,
                        got: fields_of(p[k], cfg.delim).len() as usize,
                    },
                );
            assert(lines[k] == p[k]);
            assert forall|j: int| 0 <= j < k implies !is_short(cfg, #[trigger] lines[j]) by {
                assert(lines[j] == p[j]);
            }
        } else {
            assert forall|j: int| 0 <= j < lines.len() - 1 implies !is_short(cfg, #[trigger] lines[j]) by {
                assert(lines[j] == p[j]);
            }
            let k = lines.len() - 1;
            if is_short(cfg, lines[k]) {
                assert(lines.last() == lines[k]);
            } else {
                assert forall|j: int| 0 <= j < lines.len() implies !is_short(cfg, #[trigger] lines[j]) by {
                    if j < k {
                        assert(lines[j] == p[j]);
                    }
                }
            }
        }
    }
}

/// An input is refused exactly when some line read lacks a field the
/// configuration reads; the refusal names the first such line (1-based, in
/// reading order, counting the header line), the field needed, and the
/// fields the line has.
pub proof fn law_refused_iff_short_row(raw: Seq<u8>, cfg: Config)
    ensures
        crosstab_spec(raw, cfg).0 is Err <==> exists|k: int|
            0 <= k < lines_read(cfg, raw).len() && is_short(cfg, #[trigger] lines_read(cfg, raw)[k]),
        crosstab_spec(raw, cfg).0 matches Err(e) ==> exists|k: int|
            0 <= k < lines_read(cfg, raw).len() && is_short(cfg, #[trigger] lines_read(cfg, raw)[k])
                && (forall|j: int|
                0 <= j < k ==> !is_short(cfg, #[trigger] lines_read(cfg, raw)[j])) && e == (
            CrosstabError::ShortRow {
                need: need_of(cfg) as usize,
                line: (skip_of(cfg) + k + 1) as usize,
                got: fields_of(lines_read(cfg, raw)[k], cfg.delim).len() as usize,
            }),
{
    let lines = lines_read(cfg, raw);
    if body_of(raw).len() > 0 {
        let order = reading_order(cfg, raw);
        assert(lines == order);
        lemma_read_lines_refused(cfg, order, skip_of(cfg));
        if exists|k: int| 0 <= k < lines.len() && is_short(cfg, #[trigger] lines[k]) {
            let k = choose|k: int| 0 <= k < lines.len() && is_short(cfg, #[trigger] lines[k]);
            assert(is_short(cfg, order[k]));
        }
        if let Some(e) = read_lines(cfg, order, skip_of(cfg)).1 {
            let k = choose|k: int|
                0 <= k < order.len() && is_short(cfg, #[trigger] order[k]) && (forall|j: int|
                    0 <= j < k ==> !is_short(cfg, #[trigger] order[j])) && e == (
                CrosstabError::ShortRow {
                    need: need_of(cfg) as usize,
                    line: (skip_of(cfg) + k + 1) as usize,
                    got: fields_of(order[k], cfg.delim).len() as usize,
                });
            assert(is_short(cfg, lines[k]));
            assert forall|j: int| 0 <= j < k implies !is_short(cfg, #[trigger] lines[j]) by {
                assert(lines[j] == order[j]);
            }
        }
    }
}

// ---------------------------------------------------------------------
// Labels
// ---------------------------------------------------------------------

/// The distinct values of field `idx1` (1-based) of `lines`.
pub open spec fn labels_read(lines: Seq<Seq<u8>>, idx1: int, d: u8) -> Set<Seq<u8>>
    decreases lines.len(),
{
    if lines.len() == 0 {
        Set::empty()
    } else {
        labels_read(lines.drop_last(), idx1, d).insert(fields_of(lines.last(), d)[idx1 - 1])
    }
}

/// The labels kept so far: sorted, each once, and exactly the row and column
/// fields of the lines read; the run being read has labels among them.
pub open spec fn labels_inv(cfg: Config, st: StateView, lines: Seq<Seq<u8>>) -> bool {
    &&& strictly_sorted(st.xs)
    &&& strictly_sorted(st.ys)
    &&& st.xs.to_set() == labels_read(lines, cfg.x as int, cfg.delim)
    &&& st.ys.to_set() == labels_read(lines, cfg.y as int, cfg.delim)
    &&& (st.run matches Some(r) ==> st.xs.to_set().contains(r.x) && st.ys.to_set().contains(r.y))
}

proof fn lemma_read_lines_labels(cfg: Config, lines: Seq<Seq<u8>>, first: nat)
    ensures
        read_lines(cfg, lines, first).1 is None ==> labels_inv(
            cfg,
            read_lines(cfg, lines, first).0,
            lines,
        ),
    decreases lines.len(),
{
    if lines.len() == 0 {
        let st = read_lines(cfg, lines, first).0;
        assert(st.xs.to_set() =~= Set::<Seq<u8>>::empty());
        assert(st.ys.to_set() =~= Set::<Seq<u8>>::empty());
    } else {
        let p = lines.drop_last();
        lemma_read_lines_labels(cfg, p, first);
        let prev = read_lines(cfg, p, first);
        if prev.1 is None {
            let st = prev.0;
            let line = lines.last();
            let fs = fields_of(line, cfg.delim);
            let xv = fs[cfg.x - 1];
            let yv = fs[cfg.y - 1];
            if feed_spec(cfg, st, (first + lines.len() - 1) as nat, line) is Ok {
                let s2 = read_lines(cfg, lines, first).0;
                if st.run matches Some(r) && r.x == xv && r.y == yv {
                    assert(st.xs.to_set().insert(xv) =~= st.xs.to_set());
                    assert(st.ys.to_set().insert(yv) =~= st.ys.to_set());
                } else {
                    let c = close_run(st);
                    lemma_sorted_insert_sorted(c.xs, xv);
                    lemma_sorted_insert_sorted(c.ys, yv);
                    assert(s2.xs == sorted_insert(c.xs, xv));
                    assert(s2.xs.to_set().contains(xv)) by {
                        assert(c.xs.to_set().insert(xv).contains(xv));
                    }
                    assert(s2.ys.to_set().contains(yv)) by {
                        assert(c.ys.to_set().insert(yv).contains(yv));
                    }
                }
            }
        }
    }
}

/// The row labels of a table are sorted in byte order (not numerically),
/// each once, and are exactly the distinct row fields of the lines read; the
/// same holds of the column labels.
pub proof fn law_labels(raw: Seq<u8>, cfg: Config)
    ensures
        crosstab_spec(raw, cfg).0 matches Ok(t) ==> {
            &&& strictly_sorted(t.xs)
            &&& strictly_sorted(t.ys)
            &&& t.xs.to_set() == labels_read(lines_read(cfg, raw), cfg.x as int, cfg.delim)
            &&& t.ys.to_set() == labels_read(lines_read(cfg, raw), cfg.y as int, cfg.delim)
        },
{
    if body_of(raw).len() == 0 {
        let lines = lines_read(cfg, raw);
        assert(Seq::<Seq<u8>>::empty().to_set() =~= Set::<Seq<u8>>::empty());
    } else {
        lemma_read_lines_labels(cfg, reading_order(cfg, raw), skip_of(cfg));
    }
}

// ---------------------------------------------------------------------
// Sorting first
// ---------------------------------------------------------------------

/// The (row, column) key a line that has both fields is read under.
pub open spec fn read_key(cfg: Config, line: Seq<u8>) -> (Seq<u8>, Seq<u8>) {
    let fs = fields_of(line, cfg.delim);
    (fs[cfg.x - 1], fs[cfg.y - 1])
}

/// How many of `lines` have key `k`.
pub open spec fn key_count(cfg: Config, lines: Seq<Seq<u8>>, k: (Seq<u8>, Seq<u8>)) -> nat
    decreases lines.len(),
{
    if lines.len() == 0 {
        0
    } else {
        key_count(cfg, lines.drop_last(), k) + if read_key(cfg, lines.last()) == k {
            1nat
        } else {
            0nat
        }
    }
}

/// Key order or equal keys.
pub open spec fn key_le(a: (Seq<u8>, Seq<u8>), b: (Seq<u8>, Seq<u8>)) -> bool {
    key_lt(a, b) || a == b
}

/// The keys of `lines` never decrease.
pub open spec fn keys_sorted(cfg: Config, lines: Seq<Seq<u8>>) -> bool {
    forall|a: int, b: int|
        0 <= a < b < lines.len() ==> key_le(
            read_key(cfg, #[trigger] lines[a]),
            read_key(cfg, #[trigger] lines[b]),
        )
}

proof fn lemma_key_count_none(cfg: Config, lines: Seq<Seq<u8>>, k: (Seq<u8>, Seq<u8>))
    requires
        forall|a: int| 0 <= a < lines.len() ==> key_lt(read_key(cfg, #[trigger] lines[a]), k),
    ensures
        key_count(cfg, lines, k) == 0,
    decreases lines.len(),
{
    if lines.len() > 0 {
        let p = lines.drop_last();
        assert forall|a: int| 0 <= a < p.len() implies key_lt(read_key(cfg, #[trigger] p[a]), k) by {
            assert(p[a] == lines[a]);
        }
        lemma_key_count_none(cfg, p, k);
        lemma_key_lt(k, k, k);
        assert(key_lt(read_key(cfg, lines[lines.len() - 1]), k));
    }
}

/// Reading sorted lines: each closed cell holds the count of its key among
/// the lines read, and sorts before the run being read, which holds the count
/// of the last line's key; every key read is the run's or has a cell.
pub open spec fn runs_inv(cfg: Config, st: StateView, lines: Seq<Seq<u8>>) -> bool {
    &&& lines.len() == 0 ==> st.run is None && st.cells.len() == 0
    &&& lines.len() > 0 ==> (st.run matches Some(r) && (r.x, r.y) == read_key(cfg, lines.last())
        && r.acc == AccView::Count(key_count(cfg, lines, (r.x, r.y))))
    &&& forall|i: int|
        0 <= i < st.cells.len() ==> (#[trigger] st.cells[i]).acc == AccView::Count(
            key_count(cfg, lines, (st.cells[i].x, st.cells[i].y)),
        ) && (lines.len() > 0 ==> key_lt(
            (st.cells[i].x, st.cells[i].y),
            read_key(cfg, lines.last()),
        ))
    &&& forall|a: int|
        0 <= a < lines.len() ==> read_key(cfg, #[trigger] lines[a]) == read_key(cfg, lines.last())
            || has_cell(st.cells, read_key(cfg, lines[a]).0, read_key(cfg, lines[a]).1)
}

proof fn lemma_read_sorted_lines(cfg: Config, lines: Seq<Seq<u8>>, first: nat)
    requires
        cfg.agg is None,
        keys_sorted(cfg, lines),
        forall|k: int| 0 <= k < lines.len() ==> !is_short(cfg, #[trigger] lines[k]),
    ensures
        read_lines(cfg, lines, first).1 is None,
        runs_inv(cfg, read_lines(cfg, lines, first).0, lines),
    decreases lines.len(),
{
    if lines.len() > 0 {
        let p = lines.drop_last();
        assert forall|a: int, b: int| 0 <= a < b < p.len() implies key_le(
            read_key(cfg, #[trigger] p[a]),
            read_key(cfg, #[trigger] p[b]),
        ) by {
            assert(p[a] == lines[a] && p[b] == lines[b]);
        }
        assert forall|k: int| 0 <= k < p.len() implies !is_short(cfg, #[trigger] p[k]) by {
            assert(p[k] == lines[k]);
        }
        lemma_read_sorted_lines(cfg, p, first);
        let st = read_lines(cfg, p, first).0;
        let l = lines.last();
        assert(!is_short(cfg, lines[lines.len() - 1]));
        let kk = read_key(cfg, l);
        let s2 = read_lines(cfg, lines, first).0;
        assert forall|i: int| 0 <= i < st.cells.len() implies key_count(
            cfg,
            lines,
            (#[trigger] st.cells[i].x, st.cells[i].y),
        ) == key_count(cfg, p, (st.cells[i].x, st.cells[i].y)) + if kk == (
            st.cells[i].x,
            st.cells[i].y,
        ) {
            1nat
        } else {
            0nat
        } by {}
        if p.len() == 0 {
            assert(key_count(cfg, p, kk) == 0);
            assert(key_count(cfg, lines, kk) == 1);
            assert(s2.cells =~= st.cells);
        } else {
            let rk = read_key(cfg, p.last());
            assert(key_le(rk, kk)) by {
                assert(p.last() == lines[p.len() - 1]);
            }
            let r = st.run.unwrap();
            if kk == rk {
                assert(s2.cells == st.cells);
                assert forall|i: int| 0 <= i < st.cells.len() implies kk != (
                    #[trigger] st.cells[i].x,
                    st.cells[i].y,
                ) by {
                    lemma_key_lt((st.cells[i].x, st.cells[i].y), rk, rk);
                }
                assert forall|a: int| 0 <= a < lines.len() implies read_key(cfg, #[trigger] lines[a])
                    == read_key(cfg, lines.last()) || has_cell(
                    s2.cells,
                    read_key(cfg, lines[a]).0,
                    read_key(cfg, lines[a]).1,
                ) by {
                    if a < p.len() {
                        assert(lines[a] == p[a]);
                    }
                }
            } else {
                assert(key_lt(rk, kk));
                assert(!has_cell(st.cells, r.x, r.y)) by {
                    if has_cell(st.cells, r.x, r.y) {
                        let i = choose|i: int|
                            0 <= i < st.cells.len() && (#[trigger] st.cells[i]).x == r.x
                                && st.cells[i].y == r.y;
                        lemma_key_lt(rk, rk, rk);
                    }
                }
                let c = close_run(st);
                assert(c.cells == st.cells.push(r));
                assert(s2.cells == c.cells);
                assert forall|a: int| 0 <= a < p.len() implies key_lt(read_key(cfg, #[trigger] p[a]), kk) by {
                    if a < p.len() - 1 {
                        assert(key_le(read_key(cfg, lines[a]), read_key(cfg, lines[p.len() - 1])));
                        assert(lines[a] == p[a]);
                        lemma_key_lt(read_key(cfg, p[a]), rk, kk);
                    } else {
                        assert(p[a] == p.last());
                    }
                }
                lemma_key_count_none(cfg, p, kk);
                assert forall|i: int| 0 <= i < s2.cells.len() implies (#[trigger] s2.cells[i]).acc
                    == AccView::Count(key_count(cfg, lines, (s2.cells[i].x, s2.cells[i].y))) && key_lt(
                    (s2.cells[i].x, s2.cells[i].y),
                    read_key(cfg, lines.last()),
                ) by {
                    if i < st.cells.len() {
                        assert(s2.cells[i] == st.cells[i]);
                        lemma_key_lt((st.cells[i].x, st.cells[i].y), rk, kk);
                    } else {
                        assert(s2.cells[i] == r);
                        lemma_key_lt(rk, kk, kk);
                    }
                }
                assert forall|a: int| 0 <= a < lines.len() implies read_key(cfg, #[trigger] lines[a])
                    == read_key(cfg, lines.last()) || has_cell(
                    s2.cells,
                    read_key(cfg, lines[a]).0,
                    read_key(cfg, lines[a]).1,
                ) by {
                    if a < p.len() {
                        assert(lines[a] == p[a]);
                        if read_key(cfg, p[a]) == rk {
                            assert(s2.cells[st.cells.len() as int] == r);
                        } else {
                            let k2 = read_key(cfg, p[a]);
                            let i = choose|i: int|
                                0 <= i < st.cells.len() && (#[trigger] st.cells[i]).x == k2.0
                                    && st.cells[i].y == k2.1;
                            assert(s2.cells[i] == st.cells[i]);
                        }
                    }
                }
            }
        }
    }
}

/// With `sort`, counting cells count every line of their key in the whole
/// input, and every key read has its cell.
pub proof fn law_sorted_input_counts_every_line(raw: Seq<u8>, cfg: Config)
    requires
        config_wf(cfg),
        cfg.sort,
        cfg.agg is None,
        raw.len() <= usize::MAX,
    ensures
        crosstab_spec(raw, cfg).0 matches Ok(t) ==> {
            &&& forall|i: int|
                0 <= i < t.cells.len() ==> (#[trigger] t.cells[i]).acc == AccView::Count(
                    key_count(cfg, lines_read(cfg, raw), (t.cells[i].x, t.cells[i].y)),
                )
            &&& forall|k: int|
                0 <= k < lines_read(cfg, raw).len() ==> has_cell(
                    t.cells,
                    read_key(cfg, #[trigger] lines_read(cfg, raw)[k]).0,
                    read_key(cfg, lines_read(cfg, raw)[k]).1,
                )
        },
{
    if body_of(raw).len() > 0 {
        let lines = reading_order(cfg, raw);
        assert(lines == lines_read(cfg, raw));
        lemma_read_lines_refused(cfg, lines, skip_of(cfg));
        if read_lines(cfg, lines, skip_of(cfg)).1 is None {
            let body = body_of(raw);
            let rest = split_on(body, 10).skip(skip_of(cfg) as int);
            let keys = rest.map_values(|l: Seq<u8>| line_key(cfg, l));
            lemma_split_on_len(body, 10);
            lemma_count_le(body, 10);
            lemma_key_order_exists(keys);
            let pk = key_order(keys);
            assert forall|k: int| 0 <= k < lines.len() implies !is_short(cfg, #[trigger] lines[k]) by {}
            assert forall|k: int| 0 <= k < lines.len() implies line_key(cfg, #[trigger] lines[k])
                == read_key(cfg, lines[k]) by {
                assert(!is_short(cfg, lines[k]));
            }
            assert forall|a: int, b: int| 0 <= a < b < lines.len() implies key_le(
                read_key(cfg, #[trigger] lines[a]),
                read_key(cfg, #[trigger] lines[b]),
            ) by {
                assert(pos_before(keys, pk[a] as int, pk[b] as int));
                assert(lines[a] == rest[pk[a] as int]);
                assert(lines[b] == rest[pk[b] as int]);
                assert(line_key(cfg, lines[a]) == read_key(cfg, lines[a]));
                assert(line_key(cfg, lines[b]) == read_key(cfg, lines[b]));
            }
            lemma_read_sorted_lines(cfg, lines, skip_of(cfg));
            let st = read_lines(cfg, lines, skip_of(cfg)).0;
            let f = close_run(st);
            if lines.len() > 0 {
                let r = st.run.unwrap();
                assert(!has_cell(st.cells, r.x, r.y)) by {
                    if has_cell(st.cells, r.x, r.y) {
                        let i = choose|i: int|
                            0 <= i < st.cells.len() && (#[trigger] st.cells[i]).x == r.x
                                && st.cells[i].y == r.y;
                        lemma_key_lt((r.x, r.y), (r.x, r.y), (r.x, r.y));
                    }
                }
                assert(f.cells == st.cells.push(r));
                assert forall|i: int| 0 <= i < f.cells.len() implies (#[trigger] f.cells[i]).acc
                    == AccView::Count(key_count(cfg, lines, (f.cells[i].x, f.cells[i].y))) by {
                    if i < st.cells.len() {
                        assert(f.cells[i] == st.cells[i]);
                    }
                }
                assert forall|k: int| 0 <= k < lines.len() implies has_cell(
                    f.cells,
                    read_key(cfg, #[trigger] lines[k]).0,
                    read_key(cfg, lines[k]).1,
                ) by {
                    if read_key(cfg, lines[k]) == read_key(cfg, lines.last()) {
                        assert(f.cells[st.cells.len() as int] == r);
                    } else {
                        let k2 = read_key(cfg, lines[k]);
                        let i = choose|i: int|
                            0 <= i < st.cells.len() && (#[trigger] st.cells[i]).x == k2.0
                                && st.cells[i].y == k2.1;
                        assert(f.cells[i] == st.cells[i]);
                    }
                }
            }
        }
    }
}

// ---------------------------------------------------------------------
// Consecutive runs
// ---------------------------------------------------------------------

/// How many lines, from line `i` on, have line `i`'s key without a break: the
/// length of the run line `i` starts.
pub open spec fn run_len(cfg: Config, lines: Seq<Seq<u8>>, i: int) -> nat
    decreases lines.len() - i,
{
    if 0 <= i && i + 1 < lines.len() && read_key(cfg, lines[i + 1]) == read_key(cfg, lines[i]) {
        1 + run_len(cfg, lines, i + 1)
    } else {
        1
    }
}

/// Line `f` is the first of `lines` with key `k`.
pub open spec fn first_with_key(
    cfg: Config,
    lines: Seq<Seq<u8>>,
    k: (Seq<u8>, Seq<u8>),
    f: int,
) -> bool {
    &&& 0 <= f < lines.len()
    &&& read_key(cfg, lines[f]) == k
    &&& forall|j: int| 0 <= j < f ==> read_key(cfg, #[trigger] lines[j]) != k
}

/// What one more line adds to an accumulator.
pub open spec fn acc_step(cfg: Config, a: AccView, line: Seq<u8>) -> AccView {
    match cfg.agg {
        None => acc_bump(a),
        Some((_, f)) => acc_add(a, fields_of(line, cfg.delim)[f - 1]),
    }
}

/// The accumulator of a cell that has read `seg`.
pub open spec fn acc_of(cfg: Config, seg: Seq<Seq<u8>>) -> AccView
    decreases seg.len(),
{
    if seg.len() == 0 {
        acc_new(op_of(cfg))
    } else {
        acc_step(cfg, acc_of(cfg, seg.drop_last()), seg.last())
    }
}

/// Cell `c` holds the first run of its key in `lines`, which ends by line
/// `bound`.
pub open spec fn holds_first_run(
    cfg: Config,
    lines: Seq<Seq<u8>>,
    c: crate::table::CellView,
    bound: int,
) -> bool {
    exists|f: int|
        first_with_key(cfg, lines, (c.x, c.y), f) && f + run_len(cfg, lines, f) <= bound && c.acc
            == acc_of(cfg, lines.subrange(f, f + run_len(cfg, lines, f)))
}

/// Where the run the last line is in starts.
pub open spec fn tail_start(cfg: Config, lines: Seq<Seq<u8>>) -> int
    decreases lines.len(),
{
    if lines.len() <= 1 {
        0
    } else if read_key(cfg, lines[lines.len() - 2]) == read_key(cfg, lines.last()) {
        tail_start(cfg, lines.drop_last())
    } else {
        lines.len() - 1
    }
}

proof fn lemma_tail_start(cfg: Config, lines: Seq<Seq<u8>>)
    requires
        lines.len() > 0,
    ensures
        0 <= tail_start(cfg, lines) < lines.len(),
        forall|j: int|
            tail_start(cfg, lines) <= j < lines.len() ==> read_key(cfg, #[trigger] lines[j])
                == read_key(cfg, lines.last()),
        tail_start(cfg, lines) > 0 ==> read_key(cfg, lines[tail_start(cfg, lines) - 1])
            != read_key(cfg, lines.last()),
        run_len(cfg, lines, tail_start(cfg, lines)) == lines.len() - tail_start(cfg, lines),
    decreases lines.len(),
{
    let ts = tail_start(cfg, lines);
    if lines.len() > 1 && read_key(cfg, lines[lines.len() - 2]) == read_key(cfg, lines.last()) {
        let p = lines.drop_last();
        lemma_tail_start(cfg, p);
        assert forall|j: int| ts <= j < lines.len() implies read_key(cfg, #[trigger] lines[j])
            == read_key(cfg, lines.last()) by {
            if j < p.len() {
                assert(lines[j] == p[j]);
                assert(p.last() == lines[lines.len() - 2]);
            }
        }
        if ts > 0 {
            assert(lines[ts - 1] == p[ts - 1]);
        }
    }
    lemma_run_len_to_end(cfg, lines, ts);
}

proof fn lemma_run_len_to_end(cfg: Config, lines: Seq<Seq<u8>>, i: int)
    requires
        0 <= i < lines.len(),
        forall|j: int| i <= j < lines.len() ==> read_key(cfg, #[trigger] lines[j]) == read_key(cfg, lines[i]),
    ensures
        run_len(cfg, lines, i) == lines.len() - i,
    decreases lines.len() - i,
{
    if i + 1 < lines.len() {
        assert(read_key(cfg, lines[i + 1]) == read_key(cfg, lines[i]));
        lemma_run_len_to_end(cfg, lines, i + 1);
    }
}

proof fn lemma_run_len_push(cfg: Config, lines: Seq<Seq<u8>>, l: Seq<u8>, i: int)
    requires
        0 <= i < lines.len(),
    ensures
        i + run_len(cfg, lines, i) <= lines.len(),
        run_len(cfg, lines.push(l), i) == run_len(cfg, lines, i) + if i + run_len(cfg, lines, i)
            == lines.len() && read_key(cfg, l) == read_key(cfg, lines[i]) {
            1nat
        } else {
            0nat
        },
    decreases lines.len() - i,
{
    let q = lines.push(l);
    assert(q[i] == lines[i]);
    if i + 1 < lines.len() {
        assert(q[i + 1] == lines[i + 1]);
        lemma_run_len_push(cfg, lines, l, i + 1);
    } else {
        assert(q[i + 1] == l);
        if read_key(cfg, l) == read_key(cfg, lines[i]) {
            assert(run_len(cfg, q, i + 1) == 1);
        }
    }
}

/// Reading lines in order: the run being read holds the lines of the last
/// line's run; each cell holds the first run of its key, which has ended; and
/// every key read has its cell, or is the run's key and read for the first
/// time in this run.
pub open spec fn first_runs_inv(cfg: Config, st: StateView, lines: Seq<Seq<u8>>) -> bool {
    &&& lines.len() == 0 ==> st.run is None && st.cells.len() == 0
    &&& lines.len() > 0 ==> (st.run matches Some(r) && (r.x, r.y) == read_key(cfg, lines.last())
        && r.acc == acc_of(cfg, lines.subrange(tail_start(cfg, lines), lines.len() as int)))
    &&& forall|i: int|
        0 <= i < st.cells.len() ==> holds_first_run(
            cfg,
            lines,
            #[trigger] st.cells[i],
            tail_start(cfg, lines),
        )
    &&& forall|j: int|
        0 <= j < lines.len() ==> has_cell(
            st.cells,
            read_key(cfg, #[trigger] lines[j]).0,
            read_key(cfg, lines[j]).1,
        ) || read_key(cfg, lines[j]) == read_key(cfg, lines.last())
    &&& lines.len() > 0 && !has_cell(
        st.cells,
        read_key(cfg, lines.last()).0,
        read_key(cfg, lines.last()).1,
    ) ==> first_with_key(cfg, lines, read_key(cfg, lines.last()), tail_start(cfg, lines))
}

proof fn lemma_cells_carry(
    cfg: Config,
    p: Seq<Seq<u8>>,
    l: Seq<u8>,
    cells: Seq<crate::table::CellView>,
    b0: int,
    bound: int,
)
    requires
        p.len() > 0,
        b0 <= bound,
        b0 <= p.len(),
        b0 == p.len() ==> read_key(cfg, l) != read_key(cfg, p.last()),
        forall|i: int| 0 <= i < cells.len() ==> holds_first_run(cfg, p, #[trigger] cells[i], b0),
    ensures
        forall|i: int|
            0 <= i < cells.len() ==> holds_first_run(cfg, p.push(l), #[trigger] cells[i], bound),
{
    let q = p.push(l);
    assert forall|i: int| 0 <= i < cells.len() implies holds_first_run(
        cfg,
        q,
        #[trigger] cells[i],
        bound,
    ) by {
        let k = (cells[i].x, cells[i].y);
        assert(holds_first_run(cfg, p, cells[i], b0));
        let f = choose|f: int|
            first_with_key(cfg, p, k, f) && f + run_len(cfg, p, f) <= b0 && cells[i].acc == acc_of(
                cfg,
                p.subrange(f, f + run_len(cfg, p, f)),
            );
        lemma_run_len_push(cfg, p, l, f);
        if f + run_len(cfg, p, f) == p.len() {
            lemma_run_len_keys(cfg, p, f);
            assert(read_key(cfg, p[p.len() - 1]) == read_key(cfg, p[f]));
        }
        assert(run_len(cfg, q, f) == run_len(cfg, p, f));
        assert(q.subrange(f, f + run_len(cfg, q, f)) =~= p.subrange(f, f + run_len(cfg, p, f)));
        assert forall|j: int| 0 <= j < f implies read_key(cfg, #[trigger] q[j]) != k by {
            assert(q[j] == p[j]);
        }
        assert(q[f] == p[f]);
        assert(first_with_key(cfg, q, k, f));
    }
}

#[verifier::spinoff_prover]
#[verifier::rlimit(60)]
proof fn lemma_first_runs_same_run(
    cfg: Config,
    p: Seq<Seq<u8>>,
    l: Seq<u8>,
    st: StateView,
    lineno: nat,
)
    requires
        first_runs_inv(cfg, st, p),
        p.len() > 0,
        !is_short(cfg, l),
        read_key(cfg, l) == read_key(cfg, p.last()),
    ensures
        feed_spec(cfg, st, lineno, l) is Ok,
        first_runs_inv(cfg, feed_spec(cfg, st, lineno, l)->Ok_0, p.push(l)),
{
    let lines = p.push(l);
    let kk = read_key(cfg, l);
    let s2 = feed_spec(cfg, st, lineno, l)->Ok_0;
    let n = p.len() as int;
    lemma_tail_start(cfg, p);
    let ts = tail_start(cfg, p);
    assert(lines[n - 1] == p.last());
    assert(lines.last() == l);
    assert(lines.drop_last() =~= p);
    assert(tail_start(cfg, lines) == ts);
    assert(s2.cells == st.cells);
    lemma_cells_carry(cfg, p, l, st.cells, ts, ts);
    assert(lines.subrange(ts, n + 1).drop_last() =~= p.subrange(ts, n));
    assert(lines.subrange(ts, n + 1).last() == l);
    assert forall|j: int| 0 <= j < lines.len() implies has_cell(
        s2.cells,
        read_key(cfg, #[trigger] lines[j]).0,
        read_key(cfg, lines[j]).1,
    ) || read_key(cfg, lines[j]) == read_key(cfg, lines.last()) by {
        if j < n {
            assert(lines[j] == p[j]);
        }
    }
    if !has_cell(s2.cells, kk.0, kk.1) {
        assert(first_with_key(cfg, p, kk, ts));
        assert forall|j: int| 0 <= j < ts implies read_key(cfg, #[trigger] lines[j]) != kk by {
            assert(lines[j] == p[j]);
        }
        assert(lines[ts] == p[ts]);
    }
}

proof fn lemma_first_runs_close(cfg: Config, p: Seq<Seq<u8>>, st: StateView)
    requires
        first_runs_inv(cfg, st, p),
        p.len() > 0,
    ensures
        ({
            let c = close_run(st);
            let rk = read_key(cfg, p.last());
            &&& forall|i: int|
                0 <= i < c.cells.len() ==> holds_first_run(
                    cfg,
                    p,
                    #[trigger] c.cells[i],
                    p.len() as int,
                )
            &&& forall|i: int| 0 <= i < st.cells.len() ==> c.cells[i] == st.cells[i]
            &&& st.cells.len() <= c.cells.len()
            &&& has_cell(c.cells, rk.0, rk.1)
        }),
{
    let c = close_run(st);
    let n = p.len() as int;
    lemma_tail_start(cfg, p);
    let ts = tail_start(cfg, p);
    let r = st.run.unwrap();
    let rk = read_key(cfg, p.last());
    assert forall|i: int| 0 <= i < st.cells.len() implies holds_first_run(
        cfg,
        p,
        #[trigger] st.cells[i],
        n,
    ) by {
        assert(holds_first_run(cfg, p, st.cells[i], ts));
    }
    if has_cell(st.cells, r.x, r.y) {
        assert(c.cells == st.cells);
    } else {
        assert(c.cells == st.cells.push(r));
        assert(first_with_key(cfg, p, rk, ts));
        assert(p.subrange(ts, n) =~= p.subrange(ts, ts + run_len(cfg, p, ts)));
        assert forall|i: int| 0 <= i < c.cells.len() implies holds_first_run(
            cfg,
            p,
            #[trigger] c.cells[i],
            n,
        ) by {
            if i == st.cells.len() {
                assert(c.cells[i] == r);
            } else {
                assert(c.cells[i] == st.cells[i]);
            }
        }
        assert(c.cells[st.cells.len() as int] == r);
    }
}

#[verifier::rlimit(100)]
#[verifier::spinoff_prover]
proof fn lemma_first_runs_new_run(
    cfg: Config,
    p: Seq<Seq<u8>>,
    l: Seq<u8>,
    st: StateView,
    lineno: nat,
)
    requires
        first_runs_inv(cfg, st, p),
        p.len() > 0,
        !is_short(cfg, l),
        read_key(cfg, l) != read_key(cfg, p.last()),
    ensures
        feed_spec(cfg, st, lineno, l) is Ok,
        first_runs_inv(cfg, feed_spec(cfg, st, lineno, l)->Ok_0, p.push(l)),
{
    let lines = p.push(l);
    let kk = read_key(cfg, l);
    let s2 = feed_spec(cfg, st, lineno, l)->Ok_0;
    let n = p.len() as int;
    let rk = read_key(cfg, p.last());
    lemma_tail_start(cfg, p);
    assert(lines[n - 1] == p.last());
    assert(lines.last() == l);
    assert(lines.drop_last() =~= p);
    assert(tail_start(cfg, lines) == n);
    let c = close_run(st);
    assert(s2.cells == c.cells);
    lemma_first_runs_close(cfg, p, st);
    lemma_cells_carry(cfg, p, l, c.cells, n, n);
    assert(lines.subrange(n, n + 1).drop_last() =~= Seq::<Seq<u8>>::empty());
    assert(lines.subrange(n, n + 1).last() == l);
    assert(acc_of(cfg, lines.subrange(n, n + 1).drop_last()) == acc_new(op_of(cfg)));
    assert(acc_of(cfg, lines.subrange(n, n + 1)) == acc_step(cfg, acc_new(op_of(cfg)), l));
    lemma_keys_after_close(cfg, p, st);
    assert forall|j: int| 0 <= j < lines.len() implies has_cell(
        s2.cells,
        read_key(cfg, #[trigger] lines[j]).0,
        read_key(cfg, lines[j]).1,
    ) || read_key(cfg, lines[j]) == read_key(cfg, lines.last()) by {
        if j < n {
            assert(lines[j] == p[j]);
        }
    }
    if !has_cell(s2.cells, kk.0, kk.1) {
        assert forall|j: int| 0 <= j < n implies read_key(cfg, #[trigger] lines[j]) != kk by {
            assert(lines[j] == p[j]);
        }
        assert(first_with_key(cfg, lines, kk, n));
    }
}

/// Once the run being read is closed, every key read has its cell.
proof fn lemma_keys_after_close(cfg: Config, p: Seq<Seq<u8>>, st: StateView)
    requires
        first_runs_inv(cfg, st, p),
        p.len() > 0,
    ensures
        forall|j: int|
            0 <= j < p.len() ==> has_cell(
                close_run(st).cells,
                read_key(cfg, #[trigger] p[j]).0,
                read_key(cfg, p[j]).1,
            ),
{
    let c = close_run(st);
    let rk = read_key(cfg, p.last());
    lemma_first_runs_close(cfg, p, st);
    assert forall|j: int| 0 <= j < p.len() implies has_cell(
        c.cells,
        read_key(cfg, #[trigger] p[j]).0,
        read_key(cfg, p[j]).1,
    ) by {
        if read_key(cfg, p[j]) != rk {
            let k2 = read_key(cfg, p[j]);
            let i = choose|i: int|
                0 <= i < st.cells.len() && (#[trigger] st.cells[i]).x == k2.0 && st.cells[i].y
                    == k2.1;
            assert(c.cells[i] == st.cells[i]);
        }
    }
}

/// The lines of a run all have the key of its first line.
proof fn lemma_run_len_keys(cfg: Config, lines: Seq<Seq<u8>>, i: int)
    requires
        0 <= i < lines.len(),
    ensures
        i + run_len(cfg, lines, i) <= lines.len(),
        forall|j: int|
            i <= j < i + run_len(cfg, lines, i) ==> read_key(cfg, #[trigger] lines[j]) == read_key(
                cfg,
                lines[i],
            ),
    decreases lines.len() - i,
{
    if i + 1 < lines.len() && read_key(cfg, lines[i + 1]) == read_key(cfg, lines[i]) {
        lemma_run_len_keys(cfg, lines, i + 1);
    }
}

proof fn lemma_read_first_runs(cfg: Config, lines: Seq<Seq<u8>>, first: nat)
    requires
        forall|k: int| 0 <= k < lines.len() ==> !is_short(cfg, #[trigger] lines[k]),
    ensures
        read_lines(cfg, lines, first).1 is None,
        first_runs_inv(cfg, read_lines(cfg, lines, first).0, lines),
    decreases lines.len(),
{
    if lines.len() > 0 {
        let p = lines.drop_last();
        assert forall|k: int| 0 <= k < p.len() implies !is_short(cfg, #[trigger] p[k]) by {
            assert(p[k] == lines[k]);
        }
        lemma_read_first_runs(cfg, p, first);
        let st = read_lines(cfg, p, first).0;
        let l = lines.last();
        assert(!is_short(cfg, lines[lines.len() - 1]));
        let lineno = (first + lines.len() - 1) as nat;
        assert(lines =~= p.push(l));
        if p.len() == 0 {
            let s2 = feed_spec(cfg, st, lineno, l)->Ok_0;
            assert(s2 == read_lines(cfg, lines, first).0);
            assert(tail_start(cfg, lines) == 0);
            assert(lines.subrange(0, 1).drop_last() =~= Seq::<Seq<u8>>::empty());
            assert(lines.subrange(0, 1).last() == l);
            assert(acc_of(cfg, lines.subrange(0, 1).drop_last()) == acc_new(op_of(cfg)));
            assert(acc_of(cfg, lines.subrange(0, 1)) == acc_step(cfg, acc_new(op_of(cfg)), l));
            assert(s2.cells =~= st.cells);
            assert(s2.cells.len() == 0);
            assert(first_with_key(cfg, lines, read_key(cfg, l), 0));
            assert forall|j: int| 0 <= j < lines.len() implies has_cell(
                s2.cells,
                read_key(cfg, #[trigger] lines[j]).0,
                read_key(cfg, lines[j]).1,
            ) || read_key(cfg, lines[j]) == read_key(cfg, lines.last()) by {}
        } else if read_key(cfg, l) == read_key(cfg, p.last()) {
            lemma_first_runs_same_run(cfg, p, l, st, lineno);
        } else {
            lemma_first_runs_new_run(cfg, p, l, st, lineno);
        }
    }
}

/// Only consecutive lines with the same key are read into one cell: in the
/// order the lines are read (input order, without `sort`), each cell holds
/// exactly the first run of its key, later runs of that key are dropped, and
/// every key read has its cell.
#[verifier::rlimit(60)]
pub proof fn law_first_run_fills_cell(raw: Seq<u8>, cfg: Config)
    ensures
        crosstab_spec(raw, cfg).0 matches Ok(t) ==> {
            &&& forall|i: int|
                0 <= i < t.cells.len() ==> holds_first_run(
                    cfg,
                    lines_read(cfg, raw),
                    #[trigger] t.cells[i],
                    lines_read(cfg, raw).len() as int,
                )
            &&& forall|k: int|
                0 <= k < lines_read(cfg, raw).len() ==> has_cell(
                    t.cells,
                    read_key(cfg, #[trigger] lines_read(cfg, raw)[k]).0,
                    read_key(cfg, lines_read(cfg, raw)[k]).1,
                )
        },
{
    if body_of(raw).len() > 0 {
        let lines = reading_order(cfg, raw);
        assert(lines == lines_read(cfg, raw));
        lemma_read_lines_refused(cfg, lines, skip_of(cfg));
        if read_lines(cfg, lines, skip_of(cfg)).1 is None {
            assert forall|k: int| 0 <= k < lines.len() implies !is_short(cfg, #[trigger] lines[k]) by {}
            lemma_read_first_runs(cfg, lines, skip_of(cfg));
            let st = read_lines(cfg, lines, skip_of(cfg)).0;
            let f = close_run(st);
            if lines.len() > 0 {
                let n = lines.len() as int;
                lemma_tail_start(cfg, lines);
                let ts = tail_start(cfg, lines);
                let r = st.run.unwrap();
                let rk = read_key(cfg, lines.last());
                if has_cell(st.cells, r.x, r.y) {
                    assert(f.cells == st.cells);
                } else {
                    assert(f.cells == st.cells.push(r));
                    assert(ts + run_len(cfg, lines, ts) == n);
                    assert forall|i: int| 0 <= i < f.cells.len() implies holds_first_run(
                        cfg,
                        lines,
                        #[trigger] f.cells[i],
                        n,
                    ) by {
                        if i == st.cells.len() {
                            assert(f.cells[i] == r);
                            assert(first_with_key(cfg, lines, rk, ts));
                        } else {
                            assert(f.cells[i] == st.cells[i]);
                        }
                    }
                }
                assert forall|k: int| 0 <= k < lines.len() implies has_cell(
                    f.cells,
                    read_key(cfg, #[trigger] lines[k]).0,
                    read_key(cfg, lines[k]).1,
                ) by {
                    if has_cell(st.cells, read_key(cfg, lines[k]).0, read_key(cfg, lines[k]).1) {
                        let k2 = read_key(cfg, lines[k]);
                        let i = choose|i: int|
                            0 <= i < st.cells.len() && (#[trigger] st.cells[i]).x == k2.0
                                && st.cells[i].y == k2.1;
                        assert(f.cells[i] == st.cells[i]);
                    } else {
                        assert(f.cells[st.cells.len() as int] == r);
                    }
                }
            }
        }
    }
}

// ---------------------------------------------------------------------
// Sorting first, for every operation
// ---------------------------------------------------------------------

/// The lines of the input that are read, in input order.
pub open spec fn input_lines(cfg: Config, raw: Seq<u8>) -> Seq<Seq<u8>> {
    if body_of(raw).len() == 0 {
        Seq::empty()
    } else {
        split_on(body_of(raw), 10).skip(skip_of(cfg) as int)
    }
}

/// The lines of `lines` with key `k`, in their order.
pub open spec fn lines_with_key(cfg: Config, lines: Seq<Seq<u8>>, k: (Seq<u8>, Seq<u8>)) -> Seq<
    Seq<u8>,
>
    decreases lines.len(),
{
    if lines.len() == 0 {
        Seq::empty()
    } else if read_key(cfg, lines.last()) == k {
        lines_with_key(cfg, lines.drop_last(), k).push(lines.last())
    } else {
        lines_with_key(cfg, lines.drop_last(), k)
    }
}

/// A run ends with the last line or before a line of another key.
proof fn lemma_run_len_end(cfg: Config, lines: Seq<Seq<u8>>, i: int)
    requires
        0 <= i < lines.len(),
    ensures
        i + run_len(cfg, lines, i) < lines.len() ==> read_key(
            cfg,
            lines[i + run_len(cfg, lines, i)],
        ) != read_key(cfg, lines[i]),
    decreases lines.len() - i,
{
    if i + 1 < lines.len() && read_key(cfg, lines[i + 1]) == read_key(cfg, lines[i]) {
        lemma_run_len_end(cfg, lines, i + 1);
    }
}

/// Where keys never decrease, the lines of a key are the run of its first
/// line.
proof fn lemma_sorted_run_is_key(
    cfg: Config,
    lines: Seq<Seq<u8>>,
    k: (Seq<u8>, Seq<u8>),
    f: int,
)
    requires
        keys_sorted(cfg, lines),
        first_with_key(cfg, lines, k, f),
    ensures
        forall|j: int|
            0 <= j < lines.len() ==> (read_key(cfg, #[trigger] lines[j]) == k <==> f <= j < f
                + run_len(cfg, lines, f)),
{
    lemma_run_len_keys(cfg, lines, f);
    lemma_run_len_end(cfg, lines, f);
    let e = f + run_len(cfg, lines, f);
    assert forall|j: int| 0 <= j < lines.len() implies (read_key(cfg, #[trigger] lines[j]) == k
        <==> f <= j < e) by {
        if e <= j && read_key(cfg, lines[j]) == k {
            let ke = read_key(cfg, lines[e]);
            assert(key_le(read_key(cfg, lines[f]), read_key(cfg, lines[e])));
            if j > e {
                assert(key_le(read_key(cfg, lines[e]), read_key(cfg, lines[j])));
            }
            lemma_key_lt(k, ke, k);
        }
    }
}

/// The lines at increasing positions `q`, which are all the positions of
/// lines with key `k`, are the lines with key `k`.
proof fn lemma_select(cfg: Config, rest: Seq<Seq<u8>>, k: (Seq<u8>, Seq<u8>), q: Seq<int>)
    requires
        forall|a: int, b: int| 0 <= a < b < q.len() ==> #[trigger] q[a] < #[trigger] q[b],
        forall|t: int|
            0 <= t < q.len() ==> 0 <= #[trigger] q[t] < rest.len() && read_key(cfg, rest[q[t]])
                == k,
        forall|a: int|
            0 <= a < rest.len() && read_key(cfg, #[trigger] rest[a]) == k ==> exists|t: int|
                0 <= t < q.len() && #[trigger] q[t] == a,
    ensures
        Seq::new(q.len(), |t: int| rest[q[t]]) == lines_with_key(cfg, rest, k),
    decreases rest.len(),
{
    if rest.len() == 0 {
        if q.len() > 0 {
            assert(0 <= q[0] < rest.len());
        }
        assert(Seq::new(q.len(), |t: int| rest[q[t]]) =~= Seq::<Seq<u8>>::empty());
    } else {
        let n = rest.len() - 1;
        let r2 = rest.drop_last();
        if read_key(cfg, rest.last()) == k {
            assert(read_key(cfg, rest[n]) == k);
            let t0 = choose|t: int| 0 <= t < q.len() && #[trigger] q[t] == n;
            let m = q.len() - 1;
            if t0 < m {
                assert(q[t0] < q[m]);
                assert(q[m] < rest.len());
            }
            let q2 = q.drop_last();
            assert forall|a: int, b: int| 0 <= a < b < q2.len() implies #[trigger] q2[a]
                < #[trigger] q2[b] by {
                assert(q2[a] == q[a] && q2[b] == q[b]);
            }
            assert forall|t: int| 0 <= t < q2.len() implies 0 <= #[trigger] q2[t] < r2.len()
                && read_key(cfg, r2[q2[t]]) == k by {
                assert(q2[t] == q[t]);
                assert(q[t] < q[m]);
                assert(r2[q2[t]] == rest[q[t]]);
            }
            assert forall|a: int| 0 <= a < r2.len() && read_key(cfg, #[trigger] r2[a]) == k implies exists|
                t: int,
            | 0 <= t < q2.len() && #[trigger] q2[t] == a by {
                assert(r2[a] == rest[a]);
                let t = choose|t: int| 0 <= t < q.len() && #[trigger] q[t] == a;
                assert(t != m);
                assert(q2[t] == q[t]);
            }
            lemma_select(cfg, r2, k, q2);
            assert(Seq::new(q.len(), |t: int| rest[q[t]]) =~= Seq::new(
                q2.len(),
                |t: int| r2[q2[t]],
            ).push(rest.last()));
        } else {
            assert forall|t: int| 0 <= t < q.len() implies 0 <= #[trigger] q[t] < r2.len()
                && read_key(cfg, r2[q[t]]) == k by {
                if q[t] == n {
                    assert(rest[q[t]] == rest.last());
                }
                assert(r2[q[t]] == rest[q[t]]);
            }
            assert forall|a: int| 0 <= a < r2.len() && read_key(cfg, #[trigger] r2[a]) == k implies exists|
                t: int,
            | 0 <= t < q.len() && #[trigger] q[t] == a by {
                assert(r2[a] == rest[a]);
            }
            lemma_select(cfg, r2, k, q);
            assert(Seq::new(q.len(), |t: int| rest[q[t]]) =~= Seq::new(
                q.len(),
                |t: int| r2[q[t]],
            ));
        }
    }
}

/// With `sort`, every cell aggregates all the lines of its key in the whole
/// input, in input order, whatever the operation; and every key of the input
/// has its cell.
#[verifier::spinoff_prover]
#[verifier::rlimit(40)]
pub proof fn law_sort_aggregates_whole_input(raw: Seq<u8>, cfg: Config)
    requires
        config_wf(cfg),
        cfg.sort,
        raw.len() <= usize::MAX,
    ensures
        crosstab_spec(raw, cfg).0 matches Ok(t) ==> {
            &&& forall|i: int|
                0 <= i < t.cells.len() ==> (#[trigger] t.cells[i]).acc == acc_of(
                    cfg,
                    lines_with_key(cfg, input_lines(cfg, raw), (t.cells[i].x, t.cells[i].y)),
                )
            &&& forall|a: int|
                0 <= a < input_lines(cfg, raw).len() ==> has_cell(
                    t.cells,
                    read_key(cfg, #[trigger] input_lines(cfg, raw)[a]).0,
                    read_key(cfg, input_lines(cfg, raw)[a]).1,
                )
        },
{
    law_first_run_fills_cell(raw, cfg);
    if body_of(raw).len() > 0 {
        let lines = reading_order(cfg, raw);
        assert(lines == lines_read(cfg, raw));
        lemma_read_lines_refused(cfg, lines, skip_of(cfg));
        if read_lines(cfg, lines, skip_of(cfg)).1 is None {
            let body = body_of(raw);
            let rest = split_on(body, 10).skip(skip_of(cfg) as int);
            assert(rest == input_lines(cfg, raw));
            let keys = rest.map_values(|l: Seq<u8>| line_key(cfg, l));
            lemma_split_on_len(body, 10);
            lemma_count_le(body, 10);
            lemma_key_order_exists(keys);
            let pk = key_order(keys);
            assert forall|k: int| 0 <= k < lines.len() implies !is_short(cfg, #[trigger] lines[k]) by {}
            assert forall|k: int| 0 <= k < lines.len() implies line_key(cfg, #[trigger] lines[k])
                == read_key(cfg, lines[k]) by {
                assert(!is_short(cfg, lines[k]));
            }
            assert forall|j: int| 0 <= j < lines.len() implies #[trigger] lines[j] == rest[pk[j] as int]
                && keys[pk[j] as int] == read_key(cfg, lines[j]) by {
                assert(line_key(cfg, lines[j]) == read_key(cfg, lines[j]));
            }
            assert forall|a: int, b: int| 0 <= a < b < lines.len() implies key_le(
                read_key(cfg, #[trigger] lines[a]),
                read_key(cfg, #[trigger] lines[b]),
            ) by {
                assert(pos_before(keys, pk[a] as int, pk[b] as int));
                assert(lines[a] == rest[pk[a] as int]);
                assert(lines[b] == rest[pk[b] as int]);
            }
            assert forall|a: int| #![trigger rest[a]] 0 <= a < rest.len() implies exists|j: int|
                0 <= j < lines.len() && #[trigger] pk[j] == a && lines[j] == rest[a] by {
                assert(pk.contains(a as usize));
                let j = choose|j: int| 0 <= j < pk.len() && pk[j] == a as usize;
                assert(lines[j] == rest[pk[j] as int]);
            }
            let f = close_run(read_lines(cfg, lines, skip_of(cfg)).0);
            let cells = f.cells;
            assert forall|i: int| 0 <= i < cells.len() implies (#[trigger] cells[i]).acc == acc_of(
                cfg,
                lines_with_key(cfg, rest, (cells[i].x, cells[i].y)),
            ) by {
                let c = cells[i];
                let k = (c.x, c.y);
                assert(holds_first_run(cfg, lines, c, lines.len() as int));
                let fi = choose|fi: int|
                    first_with_key(cfg, lines, k, fi) && fi + run_len(cfg, lines, fi)
                        <= lines.len() as int && c.acc == acc_of(
                        cfg,
                        lines.subrange(fi, fi + run_len(cfg, lines, fi)),
                    );
                lemma_sorted_run_is_key(cfg, lines, k, fi);
                let e = fi + run_len(cfg, lines, fi);
                let q = Seq::new((e - fi) as nat, |t: int| pk[fi + t] as int);
                assert forall|a: int, b: int| 0 <= a < b < q.len() implies #[trigger] q[a]
                    < #[trigger] q[b] by {
                    assert(pos_before(keys, pk[fi + a] as int, pk[fi + b] as int));
                    assert(read_key(cfg, lines[fi + a]) == k);
                    assert(read_key(cfg, lines[fi + b]) == k);
                    lemma_key_lt(k, k, k);
                }
                assert forall|t: int| 0 <= t < q.len() implies 0 <= #[trigger] q[t] < rest.len()
                    && read_key(cfg, rest[q[t]]) == k by {
                    assert(lines[fi + t] == rest[pk[fi + t] as int]);
                    assert(read_key(cfg, lines[fi + t]) == k);
                }
                assert forall|a: int| 0 <= a < rest.len() && read_key(cfg, #[trigger] rest[a])
                    == k implies exists|t: int| 0 <= t < q.len() && #[trigger] q[t] == a by {
                    let j = choose|j: int| 0 <= j < lines.len() && #[trigger] pk[j] == a && lines[j] == rest[a];
                    assert(read_key(cfg, lines[j]) == k);
                    assert(q[j - fi] == a);
                }
                lemma_select(cfg, rest, k, q);
                assert(lines.subrange(fi, e) =~= Seq::new(q.len(), |t: int| rest[q[t]]));
            }
            assert forall|a: int| 0 <= a < rest.len() implies has_cell(
                cells,
                read_key(cfg, #[trigger] rest[a]).0,
                read_key(cfg, rest[a]).1,
            ) by {
                let j = choose|j: int| 0 <= j < lines.len() && #[trigger] pk[j] == a && lines[j] == rest[a];
                assert(has_cell(cells, read_key(cfg, lines[j]).0, read_key(cfg, lines[j]).1));
            }
        }
    }
}

// ---------------------------------------------------------------------
// One line at a time
// ---------------------------------------------------------------------

/// Reading a line never replaces or drops a closed cell (the first run of a
/// key keeps its cell), keeps every label, and keeps what holds of every
/// state. (A refused line changes nothing: see `RunState::feed`.)
pub proof fn law_feed_keeps_cells(cfg: Config, st: StateView, lineno: nat, line: Seq<u8>)
    requires
        config_wf(cfg),
        state_inv(st),
    ensures
        feed_spec(cfg, st, lineno, line) matches Ok(s) ==> {
            &&& st.cells.len() <= s.cells.len()
            &&& forall|i: int| 0 <= i < st.cells.len() ==> #[trigger] s.cells[i] == st.cells[i]
            &&& st.xs.to_set().subset_of(s.xs.to_set())
            &&& st.ys.to_set().subset_of(s.ys.to_set())
            &&& state_inv(s)
        },
{
    let fs = fields_of(line, cfg.delim);
    if fs.len() >= need_of(cfg) {
        let xv = fs[cfg.x - 1];
        let yv = fs[cfg.y - 1];
        let s = feed_spec(cfg, st, lineno, line)->Ok_0;
        if !(st.run matches Some(r) && r.x == xv && r.y == yv) {
            let c = close_run(st);
            lemma_sorted_insert_sorted(c.xs, xv);
            lemma_sorted_insert_sorted(c.ys, yv);
            if let Some(r) = st.run {
                if !has_cell(st.cells, r.x, r.y) {
                    assert(c.cells == st.cells.push(r));
                    assert forall|i: int, j: int| 0 <= i < j < c.cells.len() implies !((
                    #[trigger] c.cells[i]).x == (#[trigger] c.cells[j]).x && c.cells[i].y
                        == c.cells[j].y) by {
                        if j == st.cells.len() {
                            assert(c.cells[i] == st.cells[i]);
                        } else {
                            assert(c.cells[i] == st.cells[i] && c.cells[j] == st.cells[j]);
                        }
                    }
                    assert forall|i: int| 0 <= i < c.cells.len() implies acc_wf(
                        (#[trigger] c.cells[i]).acc,
                    ) && acc_filled(c.cells[i].acc) by {
                        if i < st.cells.len() {
                            assert(c.cells[i] == st.cells[i]);
                        }
                    }
                }
            }
            assert(s.cells == c.cells);
            assert(st.xs.to_set().subset_of(s.xs.to_set()));
            assert(st.ys.to_set().subset_of(s.ys.to_set()));
        }
    }
}

// ---------------------------------------------------------------------
// The header line
// ---------------------------------------------------------------------

/// A first piece without delimiters, then a delimiter: the pieces of the
/// rest follow the first.
proof fn lemma_split_on_prepend(h: Seq<u8>, b: Seq<u8>, d: u8)
    requires
        forall|k: int| 0 <= k < h.len() ==> h[k] != d,
    ensures
        split_on(h + seq![d] + b, d) == seq![h] + split_on(b, d),
    decreases b.len(),
{
    let s = h + seq![d] + b;
    if b.len() == 0 {
        assert(s =~= h.push(d));
        assert(h.push(d).drop_last() =~= h);
        lemma_split_on_none(h, d);
        assert(split_on(s, d) =~= seq![h] + seq![Seq::<u8>::empty()]);
    } else {
        let b2 = b.drop_last();
        assert(s.drop_last() =~= h + seq![d] + b2);
        assert(s.last() == b.last());
        lemma_split_on_prepend(h, b2, d);
        lemma_split_on_nonempty(b2, d);
        let p = split_on(b2, d);
        if b.last() == d {
            assert(split_on(s, d) =~= seq![h] + p.push(Seq::<u8>::empty()));
        } else {
            assert(split_on(s, d) =~= seq![h] + p.update(p.len() - 1, p.last().push(b.last())));
        }
    }
}

/// `cfg` and `cfg2` read a line the same way.
pub open spec fn same_reading(cfg: Config, cfg2: Config) -> bool {
    &&& cfg.delim == cfg2.delim
    &&& cfg.x == cfg2.x
    &&& cfg.y == cfg2.y
    &&& cfg.agg == cfg2.agg
}

/// Two states hold the same labels, cells and run, and the same numeric
/// values, counted one line later in `a`.
pub open spec fn shifted(a: StateView, b: StateView) -> bool {
    &&& a.xs == b.xs
    &&& a.ys == b.ys
    &&& a.cells == b.cells
    &&& a.run == b.run
    &&& a.checks.len() == b.checks.len()
    &&& forall|i: int|
        0 <= i < a.checks.len() ==> #[trigger] a.checks[i] == (b.checks[i].0 + 1, b.checks[i].1)
}

proof fn lemma_feed_shifted(
    cfg: Config,
    cfg2: Config,
    a: StateView,
    b: StateView,
    lineno: nat,
    line: Seq<u8>,
)
    requires
        same_reading(cfg, cfg2),
        shifted(a, b),
    ensures
        feed_spec(cfg, a, lineno + 1, line) is Ok <==> feed_spec(cfg2, b, lineno, line) is Ok,
        feed_spec(cfg, a, lineno + 1, line) is Ok ==> shifted(
            feed_spec(cfg, a, lineno + 1, line)->Ok_0,
            feed_spec(cfg2, b, lineno, line)->Ok_0,
        ),
{
    assert(need_of(cfg) == need_of(cfg2));
    assert(op_of(cfg) == op_of(cfg2));
    let fs = fields_of(line, cfg.delim);
    if fs.len() >= need_of(cfg) {
        let sa = feed_spec(cfg, a, lineno + 1, line)->Ok_0;
        let sb = feed_spec(cfg2, b, lineno, line)->Ok_0;
        assert(sa.xs == sb.xs && sa.ys == sb.ys && sa.cells == sb.cells && sa.run == sb.run);
        assert forall|i: int| 0 <= i < sa.checks.len() implies #[trigger] sa.checks[i] == (
            sb.checks[i].0 + 1,
            sb.checks[i].1,
        ) by {
            if i < a.checks.len() {
                assert(sa.checks[i] == a.checks[i]);
                assert(sb.checks[i] == b.checks[i]);
            }
        }
    }
}

proof fn lemma_read_shifted(cfg: Config, cfg2: Config, lines: Seq<Seq<u8>>)
    requires
        same_reading(cfg, cfg2),
    ensures
        read_lines(cfg, lines, 1).1 is None <==> read_lines(cfg2, lines, 0).1 is None,
        shifted(read_lines(cfg, lines, 1).0, read_lines(cfg2, lines, 0).0),
    decreases lines.len(),
{
    if lines.len() > 0 {
        let p = lines.drop_last();
        lemma_read_shifted(cfg, cfg2, p);
        let a = read_lines(cfg, p, 1);
        let b = read_lines(cfg2, p, 0);
        if a.1 is None {
            lemma_feed_shifted(cfg, cfg2, a.0, b.0, (lines.len() - 1) as nat, lines.last());
            assert((1 + lines.len() - 1) as nat == (lines.len() - 1) as nat + 1);
        }
    }
}

/// The header line is dropped whatever it holds: with `header_in`, an input
/// made of a line `h`, a newline and `rest` gives the table `rest` gives
/// without `header_in`, or is refused exactly when that is, on the same line
/// (counted one later); the numeric values read are the same, on lines
/// counted one later. (`rest` a lone newline is one empty line after the
/// header, and is refused, while a lone newline alone is empty input.)
#[verifier::spinoff_prover]
#[verifier::rlimit(40)]
pub proof fn law_header_line_dropped(h: Seq<u8>, rest: Seq<u8>, cfg: Config)
    requires
        config_wf(cfg),
        cfg.header_in,
        forall|k: int| 0 <= k < h.len() ==> h[k] != 10,
        rest != seq![10u8],
    ensures
        ({
            let cfg2 = Config { header_in: false, ..cfg };
            let a = crosstab_spec(h + seq![10u8] + rest, cfg);
            let b = crosstab_spec(rest, cfg2);
            &&& a.0 is Ok <==> b.0 is Ok
            &&& a.0 is Ok ==> a.0 == b.0
            &&& a.1.len() == b.1.len()
            &&& forall|i: int| 0 <= i < a.1.len() ==> #[trigger] a.1[i] == (b.1[i].0 + 1, b.1[i].1)
            &&& rest.len() + 2 <= usize::MAX ==> (b.0 matches Err(
                CrosstabError::ShortRow { need, line, got },
            ) ==> a.0 == Err::<TableView, CrosstabError>(
                CrosstabError::ShortRow { need, line: (line + 1) as usize, got },
            ))
        }),
{
    let cfg2 = Config { header_in: false, ..cfg };
    let raw = h + seq![10u8] + rest;
    assert(same_reading(cfg, cfg2));
    assert(skip_of(cfg) == 1 && skip_of(cfg2) == 0);
    if rest.len() == 0 {
        assert(raw.last() == 10);
        assert(body_of(raw) =~= h);
        assert(body_of(rest) =~= Seq::<u8>::empty());
        if h.len() > 0 {
            lemma_split_on_none(h, 10);
            let lines = reading_order(cfg, raw);
            assert(split_on(h, 10u8).skip(1) =~= Seq::<Seq<u8>>::empty());
            assert(lines =~= Seq::<Seq<u8>>::empty());
            assert(read_lines(cfg, lines, 1) == (initial_state(), None::<CrosstabError>));
            let a = crosstab_spec(raw, cfg);
            assert(a.0 == Ok::<TableView, CrosstabError>(
                TableView { xs: Seq::empty(), ys: Seq::empty(), cells: Seq::empty() },
            ));
            assert(a.1 =~= Seq::<(nat, Seq<u8>)>::empty());
        }
    } else {
        let bb = body_of(rest);
        assert(bb.len() > 0) by {
            if rest.last() == 10 && rest.len() == 1 {
                assert(rest =~= seq![10u8]);
            }
        }
        assert(body_of(raw) =~= h + seq![10u8] + bb) by {
            assert(raw.last() == rest.last());
            if rest.last() == 10 {
                assert(raw.drop_last() =~= h + seq![10u8] + rest.drop_last());
            }
        }
        lemma_split_on_prepend(h, bb, 10);
        let lines_b = split_on(bb, 10);
        assert(split_on(body_of(raw), 10).skip(1) =~= lines_b);
        assert(lines_b.skip(0) =~= lines_b);
        assert(lines_b.map_values(|l: Seq<u8>| line_key(cfg, l)) =~= lines_b.map_values(
            |l: Seq<u8>| line_key(cfg2, l),
        ));
        let lines = reading_order(cfg, raw);
        assert(lines == reading_order(cfg2, rest));
        lemma_read_shifted(cfg, cfg2, lines);
        let ra = read_lines(cfg, lines, 1);
        let rb = read_lines(cfg2, lines, 0);
        if ra.1 is None {
            assert(shifted(close_run(ra.0), close_run(rb.0)));
        }
        if rest.len() + 2 <= usize::MAX && rb.1 is Some {
            lemma_read_lines_refused(cfg, lines, 1);
            lemma_read_lines_refused(cfg2, lines, 0);
            lemma_split_on_len(bb, 10);
            lemma_count_le(bb, 10);
            let k1 = choose|k: int|
                0 <= k < lines.len() && is_short(cfg, #[trigger] lines[k]) && (forall|j: int|
                    0 <= j < k ==> !is_short(cfg, #[trigger] lines[j])) && ra.1 == Some(
                    CrosstabError::ShortRow {
                        need: need_of(cfg) as usize,
                        line: (1 + k + 1) as usize,
                        got: fields_of(lines[k], cfg.delim).len() as usize,
                    },
                );
            let k2 = choose|k: int|
                0 <= k < lines.len() && is_short(cfg2, #[trigger] lines[k]) && (forall|j: int|
                    0 <= j < k ==> !is_short(cfg2, #[trigger] lines[j])) && rb.1 == Some(
                    CrosstabError::ShortRow {
                        need: need_of(cfg2) as usize,
                        line: (0 + k + 1) as usize,
                        got: fields_of(lines[k], cfg2.delim).len() as usize,
                    },
                );
            assert(need_of(cfg) == need_of(cfg2));
            if k1 < k2 {
                assert(!is_short(cfg2, lines[k1]));
            }
            if k2 < k1 {
                assert(!is_short(cfg, lines[k2]));
            }
            assert(k1 == k2);
        }
    }
}

pub(crate) proof fn lemma_count_le(s: Seq<u8>, d: u8)
    ensures
        count_of(s, d) <= s.len(),
    decreases s.len(),
{
    if s.len() > 0 {
        lemma_count_le(s.drop_last(), d);
    }
}

} // verus!
