//! What each operation makes of the lines of a cell: every line of the run
//! is collected, in order, and the text of a counting or textual cell is
//! what its operation promises of those values.
use vstd::prelude::*;

use crate::laws::{acc_of, is_short, law_unique_values, lines_read};
use crate::table::{body_of, crosstab_spec, feed_spec, read_lines, reading_order, skip_of, start_run};
use crate::ops::{decimal, join_spec, op_named, op_numeric, render_spec, AccView, Op};
use crate::text::{
    fields_of, lemma_lt_irreflexive, lemma_split_on_last, lemma_split_on_none, sorted_set_of,
    split_on, strictly_sorted,
};
use crate::{Config, CrosstabError};

verus! {

/// The value field of the lines of `seg`, in order.
pub open spec fn values_of(cfg: Config, seg: Seq<Seq<u8>>) -> Seq<Seq<u8>> {
    seg.map_values(|l: Seq<u8>| fields_of(l, cfg.delim)[cfg.agg->Some_0.1 - 1])
}

/// A cell collects every line of its run, in order: a counting cell counts
/// the lines, any other cell holds the value field of each line, repeated
/// values included.
pub proof fn law_cell_collects_every_line(cfg: Config, seg: Seq<Seq<u8>>)
    ensures
        match cfg.agg {
            None => acc_of(cfg, seg) == AccView::Count(seg.len()),
            Some((op, _)) => if op == Op::Count {
                acc_of(cfg, seg) == AccView::Count(seg.len())
            } else if op_numeric(op) {
                acc_of(cfg, seg) == AccView::Nums(op, values_of(cfg, seg))
            } else {
                acc_of(cfg, seg) == AccView::Strs(op, values_of(cfg, seg))
            },
        },
    decreases seg.len(),
{
    if seg.len() > 0 {
        law_cell_collects_every_line(cfg, seg.drop_last());
        if cfg.agg is Some {
            assert(values_of(cfg, seg) =~= values_of(cfg, seg.drop_last()).push(
                fields_of(seg.last(), cfg.delim)[cfg.agg->Some_0.1 - 1],
            ));
        }
    } else if cfg.agg is Some {
        assert(values_of(cfg, seg) =~= Seq::<Seq<u8>>::empty());
    }
}

/// Joining values that do not hold the delimiter, then splitting at it,
/// gives the values back.
pub proof fn law_join_splits_back(vals: Seq<Seq<u8>>, d: u8)
    requires
        vals.len() > 0,
        forall|i: int| 0 <= i < vals.len() ==> !(#[trigger] vals[i]).contains(d),
    ensures
        split_on(join_spec(vals, d), d) == vals,
    decreases vals.len(),
{
    if vals.len() == 1 {
        assert(!vals[0].contains(d));
        lemma_split_on_none(vals[0], d);
        assert(seq![vals[0]] =~= vals);
    } else {
        let p = vals.drop_last();
        assert forall|i: int| 0 <= i < p.len() implies !(#[trigger] p[i]).contains(d) by {
            assert(p[i] == vals[i]);
        }
        law_join_splits_back(p, d);
        let j = join_spec(p, d);
        let l = vals.last();
        let s = j.push(d) + l;
        assert(join_spec(vals, d) == s);
        assert(!vals[vals.len() - 1].contains(d));
        assert forall|k: int| j.len() < k < s.len() implies s[k] != d by {
            assert(s[k] == l[k - j.len() - 1]);
        }
        lemma_split_on_last(s, d, j.len() as int);
        assert(s.take(j.len() as int) =~= j);
        assert(s.skip(j.len() as int + 1) =~= l);
        assert(p.push(l) =~= vals);
    }
}

/// The number of distinct values is the length of their sorted set.
proof fn lemma_distinct_count(vals: Seq<Seq<u8>>)
    ensures
        sorted_set_of(vals).len() == vals.to_set().len(),
{
    law_unique_values(vals);
    let s = sorted_set_of(vals);
    assert(s.no_duplicates()) by {
        assert forall|i: int, j: int| 0 <= i < s.len() && 0 <= j < s.len() && i != j implies s[i]
            != s[j] by {
            lemma_lt_irreflexive(s[i]);
            if i < j {
                assert(crate::text::seq_lt(s[i], s[j]));
            } else {
                assert(crate::text::seq_lt(s[j], s[i]));
            }
        }
    }
    s.unique_seq_to_set();
}

/// What a counting or textual cell shows for the lines `seg` of its run
/// (`d` the collapse delimiter): a count of the lines; the value field of
/// the first or of the last line; the number of distinct values; and,
/// where no value holds `d`, text that splits at `d` into every value in
/// line order (`collapse`) or into the distinct values, each once, in byte
/// order (`unique`).
pub proof fn law_cell_text(cfg: Config, seg: Seq<Seq<u8>>)
    requires
        seg.len() > 0,
    ensures
        ({
            let text = render_spec(acc_of(cfg, seg), cfg.collapse_delim);
            let vals = values_of(cfg, seg);
            let d = cfg.collapse_delim;
            let op = cfg.agg->Some_0.0;
            let f = cfg.agg->Some_0.1;
            &&& (cfg.agg is None || op == Op::Count) ==> text == decimal(seg.len())
            &&& (cfg.agg is Some && op == Op::First) ==> text == fields_of(seg[0], cfg.delim)[f - 1]
            &&& (cfg.agg is Some && op == Op::Last) ==> text == fields_of(seg.last(), cfg.delim)[f
                - 1]
            &&& (cfg.agg is Some && op == Op::Countunique) ==> text == decimal(vals.to_set().len())
            &&& (cfg.agg is Some && op == Op::Collapse && forall|i: int|
                0 <= i < vals.len() ==> !(#[trigger] vals[i]).contains(d)) ==> split_on(text, d)
                == vals
            &&& (cfg.agg is Some && op == Op::Unique && forall|i: int|
                0 <= i < vals.len() ==> !(#[trigger] vals[i]).contains(d)) ==> {
                &&& strictly_sorted(split_on(text, d))
                &&& split_on(text, d).to_set() == vals.to_set()
            }
        }),
{
    law_cell_collects_every_line(cfg, seg);
    let vals = values_of(cfg, seg);
    let d = cfg.collapse_delim;
    if cfg.agg is Some {
        let op = cfg.agg->Some_0.0;
        assert(vals[0] == fields_of(seg[0], cfg.delim)[cfg.agg->Some_0.1 - 1]);
        assert(vals.last() == fields_of(seg.last(), cfg.delim)[cfg.agg->Some_0.1 - 1]);
        if op == Op::Countunique {
            lemma_distinct_count(vals);
        }
        if op == Op::Collapse && forall|i: int| 0 <= i < vals.len() ==> !(#[trigger] vals[i]).contains(d) {
            law_join_splits_back(vals, d);
        }
        if op == Op::Unique && forall|i: int| 0 <= i < vals.len() ==> !(#[trigger] vals[i]).contains(d) {
            let s = sorted_set_of(vals);
            law_unique_values(vals);
            assert(vals.to_set().contains(vals[0]));
            assert(s.to_set().contains(vals[0]));
            assert forall|i: int| 0 <= i < s.len() implies !(#[trigger] s[i]).contains(d) by {
                assert(s.to_set().contains(s[i]));
                assert(vals.to_set().contains(s[i]));
                let k = choose|k: int| 0 <= k < vals.len() && vals[k] == s[i];
            }
            law_join_splits_back(s, d);
        }
    }
}

/// The name of each operation, as the command line spells it.
pub open spec fn op_name(op: Op) -> Seq<char> {
    match op {
        Op::Absmax => "absmax"@,
        Op::Absmin => "absmin"@,
        Op::Collapse => "collapse"@,
        Op::Count => "count"@,
        Op::Countunique => "countunique"@,
        Op::First => "first"@,
        Op::Iqr => "iqr"@,
        Op::Last => "last"@,
        Op::Max => "max"@,
        Op::Mean => "mean"@,
        Op::Median => "median"@,
        Op::Min => "min"@,
        Op::Pstdev => "pstdev"@,
        Op::Pvar => "pvar"@,
        Op::Q1 => "q1"@,
        Op::Q3 => "q3"@,
        Op::Range => "range"@,
        Op::Sstdev => "sstdev"@,
        Op::Sum => "sum"@,
        Op::Svar => "svar"@,
        Op::Unique => "unique"@,
    }
}

/// Each operation is known by its own name: the name of an operation
/// parses back to that operation (a name tried earlier never matches it).
pub proof fn law_op_names(op: Op)
    ensures
        op_named(op_name(op)) == Some(op),
{
    match op {
        Op::Absmax => {
            reveal_strlit("absmax");
            reveal_strlit("count");
            assert("absmax"@.len() != "count"@.len());
            reveal_strlit("sum");
            assert("absmax"@.len() != "sum"@.len());
            reveal_strlit("min");
            assert("absmax"@.len() != "min"@.len());
            reveal_strlit("max");
            assert("absmax"@.len() != "max"@.len());
            reveal_strlit("absmin");
            assert("absmax"@[4] != "absmin"@[4]);
        },
        Op::Absmin => {
            reveal_strlit("absmin");
            reveal_strlit("count");
            assert("absmin"@.len() != "count"@.len());
            reveal_strlit("sum");
            assert("absmin"@.len() != "sum"@.len());
            reveal_strlit("min");
            assert("absmin"@.len() != "min"@.len());
            reveal_strlit("max");
            assert("absmin"@.len() != "max"@.len());
        },
        Op::Collapse => {
            reveal_strlit("collapse");
            reveal_strlit("count");
            assert("collapse"@.len() != "count"@.len());
            reveal_strlit("sum");
            assert("collapse"@.len() != "sum"@.len());
            reveal_strlit("min");
            assert("collapse"@.len() != "min"@.len());
            reveal_strlit("max");
            assert("collapse"@.len() != "max"@.len());
            reveal_strlit("absmin");
            assert("collapse"@.len() != "absmin"@.len());
            reveal_strlit("absmax");
            assert("collapse"@.len() != "absmax"@.len());
            reveal_strlit("range");
            assert("collapse"@.len() != "range"@.len());
            reveal_strlit("mean");
            assert("collapse"@.len() != "mean"@.len());
            reveal_strlit("median");
            assert("collapse"@.len() != "median"@.len());
            reveal_strlit("q1");
            assert("collapse"@.len() != "q1"@.len());
            reveal_strlit("q3");
            assert("collapse"@.len() != "q3"@.len());
            reveal_strlit("iqr");
            assert("collapse"@.len() != "iqr"@.len());
            reveal_strlit("pstdev");
            assert("collapse"@.len() != "pstdev"@.len());
            reveal_strlit("sstdev");
            assert("collapse"@.len() != "sstdev"@.len());
            reveal_strlit("pvar");
            assert("collapse"@.len() != "pvar"@.len());
            reveal_strlit("svar");
            assert("collapse"@.len() != "svar"@.len());
            reveal_strlit("first");
            assert("collapse"@.len() != "first"@.len());
            reveal_strlit("last");
            assert("collapse"@.len() != "last"@.len());
            reveal_strlit("unique");
            assert("collapse"@.len() != "unique"@.len());
        },
        Op::Count => {
            reveal_strlit("count");
        },
        Op::Countunique => {
            reveal_strlit("countunique");
            reveal_strlit("count");
            assert("countunique"@.len() != "count"@.len());
            reveal_strlit("sum");
            assert("countunique"@.len() != "sum"@.len());
            reveal_strlit("min");
            assert("countunique"@.len() != "min"@.len());
            reveal_strlit("max");
            assert("countunique"@.len() != "max"@.len());
            reveal_strlit("absmin");
            assert("countunique"@.len() != "absmin"@.len());
            reveal_strlit("absmax");
            assert("countunique"@.len() != "absmax"@.len());
            reveal_strlit("range");
            assert("countunique"@.len() != "range"@.len());
            reveal_strlit("mean");
            assert("countunique"@.len() != "mean"@.len());
            reveal_strlit("median");
            assert("countunique"@.len() != "median"@.len());
            reveal_strlit("q1");
            assert("countunique"@.len() != "q1"@.len());
            reveal_strlit("q3");
            assert("countunique"@.len() != "q3"@.len());
            reveal_strlit("iqr");
            assert("countunique"@.len() != "iqr"@.len());
            reveal_strlit("pstdev");
            assert("countunique"@.len() != "pstdev"@.len());
            reveal_strlit("sstdev");
            assert("countunique"@.len() != "sstdev"@.len());
            reveal_strlit("pvar");
            assert("countunique"@.len() != "pvar"@.len());
            reveal_strlit("svar");
            assert("countunique"@.len() != "svar"@.len());
            reveal_strlit("first");
            assert("countunique"@.len() != "first"@.len());
            reveal_strlit("last");
            assert("countunique"@.len() != "last"@.len());
            reveal_strlit("unique");
            assert("countunique"@.len() != "unique"@.len());
            reveal_strlit("collapse");
            assert("countunique"@.len() != "collapse"@.len());
        },
        Op::First => {
            reveal_strlit("first");
            reveal_strlit("count");
            assert("first"@[0] != "count"@[0]);
            reveal_strlit("sum");
            assert("first"@.len() != "sum"@.len());
            reveal_strlit("min");
            assert("first"@.len() != "min"@.len());
            reveal_strlit("max");
            assert("first"@.len() != "max"@.len());
            reveal_strlit("absmin");
            assert("first"@.len() != "absmin"@.len());
            reveal_strlit("absmax");
            assert("first"@.len() != "absmax"@.len());
            reveal_strlit("range");
            assert("first"@[0] != "range"@[0]);
            reveal_strlit("mean");
            assert("first"@.len() != "mean"@.len());
            reveal_strlit("median");
            assert("first"@.len() != "median"@.len());
            reveal_strlit("q1");
            assert("first"@.len() != "q1"@.len());
            reveal_strlit("q3");
            assert("first"@.len() != "q3"@.len());
            reveal_strlit("iqr");
            assert("first"@.len() != "iqr"@.len());
            reveal_strlit("pstdev");
            assert("first"@.len() != "pstdev"@.len());
            reveal_strlit("sstdev");
            assert("first"@.len() != "sstdev"@.len());
            reveal_strlit("pvar");
            assert("first"@.len() != "pvar"@.len());
            reveal_strlit("svar");
            assert("first"@.len() != "svar"@.len());
        },
        Op::Iqr => {
            reveal_strlit("iqr");
            reveal_strlit("count");
            assert("iqr"@.len() != "count"@.len());
            reveal_strlit("sum");
            assert("iqr"@[0] != "sum"@[0]);
            reveal_strlit("min");
            assert("iqr"@[0] != "min"@[0]);
            reveal_strlit("max");
            assert("iqr"@[0] != "max"@[0]);
            reveal_strlit("absmin");
            assert("iqr"@.len() != "absmin"@.len());
            reveal_strlit("absmax");
            assert("iqr"@.len() != "absmax"@.len());
            reveal_strlit("range");
            assert("iqr"@.len() != "range"@.len());
            reveal_strlit("mean");
            assert("iqr"@.len() != "mean"@.len());
            reveal_strlit("median");
            assert("iqr"@.len() != "median"@.len());
            reveal_strlit("q1");
            assert("iqr"@.len() != "q1"@.len());
            reveal_strlit("q3");
            assert("iqr"@.len() != "q3"@.len());
        },
        Op::Last => {
            reveal_strlit("last");
            reveal_strlit("count");
            assert("last"@.len() != "count"@.len());
            reveal_strlit("sum");
            assert("last"@.len() != "sum"@.len());
            reveal_strlit("min");
            assert("last"@.len() != "min"@.len());
            reveal_strlit("max");
            assert("last"@.len() != "max"@.len());
            reveal_strlit("absmin");
            assert("last"@.len() != "absmin"@.len());
            reveal_strlit("absmax");
            assert("last"@.len() != "absmax"@.len());
            reveal_strlit("range");
            assert("last"@.len() != "range"@.len());
            reveal_strlit("mean");
            assert("last"@[0] != "mean"@[0]);
            reveal_strlit("median");
            assert("last"@.len() != "median"@.len());
            reveal_strlit("q1");
            assert("last"@.len() != "q1"@.len());
            reveal_strlit("q3");
            assert("last"@.len() != "q3"@.len());
            reveal_strlit("iqr");
            assert("last"@.len() != "iqr"@.len());
            reveal_strlit("pstdev");
            assert("last"@.len() != "pstdev"@.len());
            reveal_strlit("sstdev");
            assert("last"@.len() != "sstdev"@.len());
            reveal_strlit("pvar");
            assert("last"@[0] != "pvar"@[0]);
            reveal_strlit("svar");
            assert("last"@[0] != "svar"@[0]);
            reveal_strlit("first");
            assert("last"@.len() != "first"@.len());
        },
        Op::Max => {
            reveal_strlit("max");
            reveal_strlit("count");
            assert("max"@.len() != "count"@.len());
            reveal_strlit("sum");
            assert("max"@[0] != "sum"@[0]);
            reveal_strlit("min");
            assert("max"@[1] != "min"@[1]);
        },
        Op::Mean => {
            reveal_strlit("mean");
            reveal_strlit("count");
            assert("mean"@.len() != "count"@.len());
            reveal_strlit("sum");
            assert("mean"@.len() != "sum"@.len());
            reveal_strlit("min");
            assert("mean"@.len() != "min"@.len());
            reveal_strlit("max");
            assert("mean"@.len() != "max"@.len());
            reveal_strlit("absmin");
            assert("mean"@.len() != "absmin"@.len());
            reveal_strlit("absmax");
            assert("mean"@.len() != "absmax"@.len());
            reveal_strlit("range");
            assert("mean"@.len() != "range"@.len());
        },
        Op::Median => {
            reveal_strlit("median");
            reveal_strlit("count");
            assert("median"@.len() != "count"@.len());
            reveal_strlit("sum");
            assert("median"@.len() != "sum"@.len());
            reveal_strlit("min");
            assert("median"@.len() != "min"@.len());
            reveal_strlit("max");
            assert("median"@.len() != "max"@.len());
            reveal_strlit("absmin");
            assert("median"@[0] != "absmin"@[0]);
            reveal_strlit("absmax");
            assert("median"@[0] != "absmax"@[0]);
            reveal_strlit("range");
            assert("median"@.len() != "range"@.len());
            reveal_strlit("mean");
            assert("median"@.len() != "mean"@.len());
        },
        Op::Min => {
            reveal_strlit("min");
            reveal_strlit("count");
            assert("min"@.len() != "count"@.len());
            reveal_strlit("sum");
            assert("min"@[0] != "sum"@[0]);
        },
        Op::Pstdev => {
            reveal_strlit("pstdev");
            reveal_strlit("count");
            assert("pstdev"@.len() != "count"@.len());
            reveal_strlit("sum");
            assert("pstdev"@.len() != "sum"@.len());
            reveal_strlit("min");
            assert("pstdev"@.len() != "min"@.len());
            reveal_strlit("max");
            assert("pstdev"@.len() != "max"@.len());
            reveal_strlit("absmin");
            assert("pstdev"@[0] != "absmin"@[0]);
            reveal_strlit("absmax");
            assert("pstdev"@[0] != "absmax"@[0]);
            reveal_strlit("range");
            assert("pstdev"@.len() != "range"@.len());
            reveal_strlit("mean");
            assert("pstdev"@.len() != "mean"@.len());
            reveal_strlit("median");
            assert("pstdev"@[0] != "median"@[0]);
            reveal_strlit("q1");
            assert("pstdev"@.len() != "q1"@.len());
            reveal_strlit("q3");
            assert("pstdev"@.len() != "q3"@.len());
            reveal_strlit("iqr");
            assert("pstdev"@.len() != "iqr"@.len());
        },
        Op::Pvar => {
            reveal_strlit("pvar");
            reveal_strlit("count");
            assert("pvar"@.len() != "count"@.len());
            reveal_strlit("sum");
            assert("pvar"@.len() != "sum"@.len());
            reveal_strlit("min");
            assert("pvar"@.len() != "min"@.len());
            reveal_strlit("max");
            assert("pvar"@.len() != "max"@.len());
            reveal_strlit("absmin");
            assert("pvar"@.len() != "absmin"@.len());
            reveal_strlit("absmax");
            assert("pvar"@.len() != "absmax"@.len());
            reveal_strlit("range");
            assert("pvar"@.len() != "range"@.len());
            reveal_strlit("mean");
            assert("pvar"@[0] != "mean"@[0]);
            reveal_strlit("median");
            assert("pvar"@.len() != "median"@.len());
            reveal_strlit("q1");
            assert("pvar"@.len() != "q1"@.len());
            reveal_strlit("q3");
            assert("pvar"@.len() != "q3"@.len());
            reveal_strlit("iqr");
            assert("pvar"@.len() != "iqr"@.len());
            reveal_strlit("pstdev");
            assert("pvar"@.len() != "pstdev"@.len());
            reveal_strlit("sstdev");
            assert("pvar"@.len() != "sstdev"@.len());
        },
        Op::Q1 => {
            reveal_strlit("q1");
            reveal_strlit("count");
            assert("q1"@.len() != "count"@.len());
            reveal_strlit("sum");
            assert("q1"@.len() != "sum"@.len());
            reveal_strlit("min");
            assert("q1"@.len() != "min"@.len());
            reveal_strlit("max");
            assert("q1"@.len() != "max"@.len());
            reveal_strlit("absmin");
            assert("q1"@.len() != "absmin"@.len());
            reveal_strlit("absmax");
            assert("q1"@.len() != "absmax"@.len());
            reveal_strlit("range");
            assert("q1"@.len() != "range"@.len());
            reveal_strlit("mean");
            assert("q1"@.len() != "mean"@.len());
            reveal_strlit("median");
            assert("q1"@.len() != "median"@.len());
        },
        Op::Q3 => {
            reveal_strlit("q3");
            reveal_strlit("count");
            assert("q3"@.len() != "count"@.len());
            reveal_strlit("sum");
            assert("q3"@.len() != "sum"@.len());
            reveal_strlit("min");
            assert("q3"@.len() != "min"@.len());
            reveal_strlit("max");
            assert("q3"@.len() != "max"@.len());
            reveal_strlit("absmin");
            assert("q3"@.len() != "absmin"@.len());
            reveal_strlit("absmax");
            assert("q3"@.len() != "absmax"@.len());
            reveal_strlit("range");
            assert("q3"@.len() != "range"@.len());
            reveal_strlit("mean");
            assert("q3"@.len() != "mean"@.len());
            reveal_strlit("median");
            assert("q3"@.len() != "median"@.len());
            reveal_strlit("q1");
            assert("q3"@[1] != "q1"@[1]);
        },
        Op::Range => {
            reveal_strlit("range");
            reveal_strlit("count");
            assert("range"@[0] != "count"@[0]);
            reveal_strlit("sum");
            assert("range"@.len() != "sum"@.len());
            reveal_strlit("min");
            assert("range"@.len() != "min"@.len());
            reveal_strlit("max");
            assert("range"@.len() != "max"@.len());
            reveal_strlit("absmin");
            assert("range"@.len() != "absmin"@.len());
            reveal_strlit("absmax");
            assert("range"@.len() != "absmax"@.len());
        },
        Op::Sstdev => {
            reveal_strlit("sstdev");
            reveal_strlit("count");
            assert("sstdev"@.len() != "count"@.len());
            reveal_strlit("sum");
            assert("sstdev"@.len() != "sum"@.len());
            reveal_strlit("min");
            assert("sstdev"@.len() != "min"@.len());
            reveal_strlit("max");
            assert("sstdev"@.len() != "max"@.len());
            reveal_strlit("absmin");
            assert("sstdev"@[0] != "absmin"@[0]);
            reveal_strlit("absmax");
            assert("sstdev"@[0] != "absmax"@[0]);
            reveal_strlit("range");
            assert("sstdev"@.len() != "range"@.len());
            reveal_strlit("mean");
            assert("sstdev"@.len() != "mean"@.len());
            reveal_strlit("median");
            assert("sstdev"@[0] != "median"@[0]);
            reveal_strlit("q1");
            assert("sstdev"@.len() != "q1"@.len());
            reveal_strlit("q3");
            assert("sstdev"@.len() != "q3"@.len());
            reveal_strlit("iqr");
            assert("sstdev"@.len() != "iqr"@.len());
            reveal_strlit("pstdev");
            assert("sstdev"@[0] != "pstdev"@[0]);
        },
        Op::Sum => {
            reveal_strlit("sum");
            reveal_strlit("count");
            assert("sum"@.len() != "count"@.len());
        },
        Op::Svar => {
            reveal_strlit("svar");
            reveal_strlit("count");
            assert("svar"@.len() != "count"@.len());
            reveal_strlit("sum");
            assert("svar"@.len() != "sum"@.len());
            reveal_strlit("min");
            assert("svar"@.len() != "min"@.len());
            reveal_strlit("max");
            assert("svar"@.len() != "max"@.len());
            reveal_strlit("absmin");
            assert("svar"@.len() != "absmin"@.len());
            reveal_strlit("absmax");
            assert("svar"@.len() != "absmax"@.len());
            reveal_strlit("range");
            assert("svar"@.len() != "range"@.len());
            reveal_strlit("mean");
            assert("svar"@[0] != "mean"@[0]);
            reveal_strlit("median");
            assert("svar"@.len() != "median"@.len());
            reveal_strlit("q1");
            assert("svar"@.len() != "q1"@.len());
            reveal_strlit("q3");
            assert("svar"@.len() != "q3"@.len());
            reveal_strlit("iqr");
            assert("svar"@.len() != "iqr"@.len());
            reveal_strlit("pstdev");
            assert("svar"@.len() != "pstdev"@.len());
            reveal_strlit("sstdev");
            assert("svar"@.len() != "sstdev"@.len());
            reveal_strlit("pvar");
            assert("svar"@[0] != "pvar"@[0]);
        },
        Op::Unique => {
            reveal_strlit("unique");
            reveal_strlit("count");
            assert("unique"@.len() != "count"@.len());
            reveal_strlit("sum");
            assert("unique"@.len() != "sum"@.len());
            reveal_strlit("min");
            assert("unique"@.len() != "min"@.len());
            reveal_strlit("max");
            assert("unique"@.len() != "max"@.len());
            reveal_strlit("absmin");
            assert("unique"@[0] != "absmin"@[0]);
            reveal_strlit("absmax");
            assert("unique"@[0] != "absmax"@[0]);
            reveal_strlit("range");
            assert("unique"@.len() != "range"@.len());
            reveal_strlit("mean");
            assert("unique"@.len() != "mean"@.len());
            reveal_strlit("median");
            assert("unique"@[0] != "median"@[0]);
            reveal_strlit("q1");
            assert("unique"@.len() != "q1"@.len());
            reveal_strlit("q3");
            assert("unique"@.len() != "q3"@.len());
            reveal_strlit("iqr");
            assert("unique"@.len() != "iqr"@.len());
            reveal_strlit("pstdev");
            assert("unique"@[0] != "pstdev"@[0]);
            reveal_strlit("sstdev");
            assert("unique"@[0] != "sstdev"@[0]);
            reveal_strlit("pvar");
            assert("unique"@.len() != "pvar"@.len());
            reveal_strlit("svar");
            assert("unique"@.len() != "svar"@.len());
            reveal_strlit("first");
            assert("unique"@.len() != "first"@.len());
            reveal_strlit("last");
            assert("unique"@.len() != "last"@.len());
        },
    }
}

/// The operations whose cells hold numbers (printed by the caller in
/// `%.14g`) are the arithmetic and statistical ones; counting and the
/// textual operations are not.
pub proof fn law_numeric_ops(op: Op)
    ensures
        op_numeric(op) <==> (op == Op::Sum || op == Op::Min || op == Op::Max || op == Op::Absmin
            || op == Op::Absmax || op == Op::Range || op == Op::Mean || op == Op::Median || op
            == Op::Q1 || op == Op::Q3 || op == Op::Iqr || op == Op::Pstdev || op == Op::Sstdev || op
            == Op::Pvar || op == Op::Svar),
{
}

/// A line is refused as short exactly when it lacks one of the fields read:
/// the row field, the column field, or the value field.
pub proof fn law_short_means_missing_field(cfg: Config, line: Seq<u8>)
    ensures
        is_short(cfg, line) <==> {
            let n = fields_of(line, cfg.delim).len();
            ||| n < cfg.x
            ||| n < cfg.y
            ||| (cfg.agg matches Some((_, f)) && n < f)
        },
{
}

/// The lines of `lines` read before the first short one (all of them when
/// none is short).
pub open spec fn until_short(cfg: Config, lines: Seq<Seq<u8>>) -> Seq<Seq<u8>>
    decreases lines.len(),
{
    if lines.len() == 0 {
        Seq::empty()
    } else {
        let p = until_short(cfg, lines.drop_last());
        if p.len() < lines.len() - 1 || is_short(cfg, lines.last()) {
            p
        } else {
            lines
        }
    }
}

/// The value field of each of `lines`, with its line number (1-based, the
/// first of `lines` being line `first + 1`).
pub open spec fn numbered_values(cfg: Config, lines: Seq<Seq<u8>>, first: nat) -> Seq<
    (nat, Seq<u8>),
> {
    Seq::new(
        lines.len(),
        |k: int| ((first + k + 1) as nat, fields_of(lines[k], cfg.delim)[cfg.agg->Some_0.1 - 1]),
    )
}

/// Whether `cfg` fills numeric cells.
pub open spec fn numeric_cfg(cfg: Config) -> bool {
    cfg.agg matches Some((op, _)) && op_numeric(op)
}

proof fn lemma_read_values(cfg: Config, lines: Seq<Seq<u8>>, first: nat)
    ensures
        ({
            let r = read_lines(cfg, lines, first);
            let u = until_short(cfg, lines);
            &&& u.len() <= lines.len()
            &&& u == lines.take(u.len() as int)
            &&& (r.1 is None <==> u.len() == lines.len())
            &&& numeric_cfg(cfg) ==> r.0.checks == numbered_values(cfg, u, first)
            &&& !numeric_cfg(cfg) ==> r.0.checks == Seq::<(nat, Seq<u8>)>::empty()
            &&& (r.0.run matches Some(c) ==> (c.acc is Nums <==> numeric_cfg(cfg)))
        }),
    decreases lines.len(),
{
    let u = until_short(cfg, lines);
    let r = read_lines(cfg, lines, first);
    if lines.len() == 0 {
        assert(lines.take(0) =~= Seq::<Seq<u8>>::empty());
        assert(numbered_values(cfg, u, first) =~= Seq::<(nat, Seq<u8>)>::empty());
    } else {
        let p = lines.drop_last();
        lemma_read_values(cfg, p, first);
        let up = until_short(cfg, p);
        let prev = read_lines(cfg, p, first);
        assert(p.take(up.len() as int) =~= lines.take(up.len() as int));
        if prev.1 is Some {
            assert(r == prev);
            assert(u == up);
        } else {
            assert(up.len() == p.len());
            assert(p.take(p.len() as int) =~= p);
            assert(up == p);
            let l = lines.last();
            let lineno = (first + lines.len() - 1) as nat;
            if is_short(cfg, l) {
                assert(u == up);
                assert(r == (prev.0, Some(feed_spec(cfg, prev.0, lineno, l)->Err_0)));
            } else {
                assert(u == lines);
                assert(lines.take(lines.len() as int) =~= lines);
                let fr = feed_spec(cfg, prev.0, lineno, l);
                assert(fr is Ok);
                let s = fr->Ok_0;
                assert(r == (s, None::<CrosstabError>));
                let fs = fields_of(l, cfg.delim);
                let st1 = if prev.0.run matches Some(c) && c.x == fs[cfg.x - 1] && c.y == fs[cfg.y
                    - 1] {
                    prev.0
                } else {
                    start_run(cfg, prev.0, fs[cfg.x - 1], fs[cfg.y - 1])
                };
                let c = st1.run.unwrap();
                assert(c.acc is Nums <==> numeric_cfg(cfg));
                if numeric_cfg(cfg) {
                    assert(numbered_values(cfg, u, first) =~= numbered_values(cfg, p, first).push(
                        (lineno + 1, fs[cfg.agg->Some_0.1 - 1]),
                    ));
                }
            }
        }
    }
}

/// The caller is handed every value read into a numeric cell, with its
/// line: with a numeric operation, the value field of every line read, in
/// reading order, up to the first short line, each with its 1-based line
/// number (the header line counted); with any other operation, none.
pub proof fn law_numeric_values_listed(raw: Seq<u8>, cfg: Config)
    ensures
        numeric_cfg(cfg) ==> crosstab_spec(raw, cfg).1 == numbered_values(
            cfg,
            until_short(cfg, lines_read(cfg, raw)),
            skip_of(cfg),
        ),
        !numeric_cfg(cfg) ==> crosstab_spec(raw, cfg).1 == Seq::<(nat, Seq<u8>)>::empty(),
{
    if body_of(raw).len() == 0 {
        assert(until_short(cfg, lines_read(cfg, raw)) =~= Seq::<Seq<u8>>::empty());
        assert(numbered_values(cfg, Seq::empty(), skip_of(cfg)) =~= Seq::<(nat, Seq<u8>)>::empty());
    } else {
        let lines = reading_order(cfg, raw);
        assert(lines == lines_read(cfg, raw));
        lemma_read_values(cfg, lines, skip_of(cfg));
    }
}

} // verus!
