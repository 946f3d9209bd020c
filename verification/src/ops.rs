//! Cell operations: the aggregate a cell applies, and the accumulator that
//! collects a cell's values.
use vstd::prelude::*;

use crate::text::{
    ByteOrder, bytes_equal, intern, lemma_sorted_insert_sorted, sorted_set_of, strictly_sorted,
    views,
};

verus! {

broadcast use vstd::utf8::encode_utf8_decode_utf8;

/// The aggregate that fills a cell.
#[derive(Clone, Copy, Debug, PartialEq, Eq, Structural)]
pub enum Op {
    Count,
    Sum,
    Min,
    Max,
    Absmin,
    Absmax,
    Range,
    Mean,
    Median,
    Q1,
    Q3,
    Iqr,
    Pstdev,
    Sstdev,
    Pvar,
    Svar,
    First,
    Last,
    Unique,
    Collapse,
    Countunique,
}

/// The operation a name stands for, if any.
pub open spec fn op_named(name: Seq<char>) -> Option<Op> {
    if name == "count"@ {
        Some(Op::Count)
    } else if name == "sum"@ {
        Some(Op::Sum)
    } else if name == "min"@ {
        Some(Op::Min)
    } else if name == "max"@ {
        Some(Op::Max)
    } else if name == "absmin"@ {
        Some(Op::Absmin)
    } else if name == "absmax"@ {
        Some(Op::Absmax)
    } else if name == "range"@ {
        Some(Op::Range)
    } else if name == "mean"@ {
        Some(Op::Mean)
    } else if name == "median"@ {
        Some(Op::Median)
    } else if name == "q1"@ {
        Some(Op::Q1)
    } else if name == "q3"@ {
        Some(Op::Q3)
    } else if name == "iqr"@ {
        Some(Op::Iqr)
    } else if name == "pstdev"@ {
        Some(Op::Pstdev)
    } else if name == "sstdev"@ {
        Some(Op::Sstdev)
    } else if name == "pvar"@ {
        Some(Op::Pvar)
    } else if name == "svar"@ {
        Some(Op::Svar)
    } else if name == "first"@ {
        Some(Op::First)
    } else if name == "last"@ {
        Some(Op::Last)
    } else if name == "unique"@ {
        Some(Op::Unique)
    } else if name == "collapse"@ {
        Some(Op::Collapse)
    } else if name == "countunique"@ {
        Some(Op::Countunique)
    } else {
        None
    }
}

/// Whether an operation aggregates numbers (as opposed to counting lines or
/// combining the values as text).
pub open spec fn op_numeric(op: Op) -> bool {
    !(op == Op::Count || op == Op::First || op == Op::Last || op == Op::Unique || op
        == Op::Collapse || op == Op::Countunique)
}

/// Whether `name` is spelled `lit`.
fn name_is(name: &str, lit: &str) -> (r: bool)
    ensures
        r == (name@ == lit@),
{
    let r = bytes_equal(name.as_bytes(), lit.as_bytes());
    proof {
        vstd::utf8::encode_utf8_decode_utf8(name@);
        vstd::utf8::encode_utf8_decode_utf8(lit@);
    }
    r
}

impl Op {
    /// The operation called `name`, or `None` for an unknown name.
    pub fn parse(name: &str) -> (r: Option<Op>)
        ensures
            r == op_named(name@),
    {
        if name_is(name, "count") {
            Some(Op::Count)
        } else if name_is(name, "sum") {
            Some(Op::Sum)
        } else if name_is(name, "min") {
            Some(Op::Min)
        } else if name_is(name, "max") {
            Some(Op::Max)
        } else if name_is(name, "absmin") {
            Some(Op::Absmin)
        } else if name_is(name, "absmax") {
            Some(Op::Absmax)
        } else if name_is(name, "range") {
            Some(Op::Range)
        } else if name_is(name, "mean") {
            Some(Op::Mean)
        } else if name_is(name, "median") {
            Some(Op::Median)
        } else if name_is(name, "q1") {
            Some(Op::Q1)
        } else if name_is(name, "q3") {
            Some(Op::Q3)
        } else if name_is(name, "iqr") {
            Some(Op::Iqr)
        } else if name_is(name, "pstdev") {
            Some(Op::Pstdev)
        } else if name_is(name, "sstdev") {
            Some(Op::Sstdev)
        } else if name_is(name, "pvar") {
            Some(Op::Pvar)
        } else if name_is(name, "svar") {
            Some(Op::Svar)
        } else if name_is(name, "first") {
            Some(Op::First)
        } else if name_is(name, "last") {
            Some(Op::Last)
        } else if name_is(name, "unique") {
            Some(Op::Unique)
        } else if name_is(name, "collapse") {
            Some(Op::Collapse)
        } else if name_is(name, "countunique") {
            Some(Op::Countunique)
        } else {
            None
        }
    }

    /// Whether this operation aggregates numbers.
    pub fn numeric(self) -> (r: bool)
        ensures
            r == op_numeric(self),
    {
        match self {
            Op::Count | Op::First | Op::Last | Op::Unique | Op::Collapse | Op::Countunique => false,
            _ => true,
        }
    }
}

// ---------------------------------------------------------------------
// Decimal rendering and joining
// ---------------------------------------------------------------------

/// The decimal digits of `n`, most significant first, without leading zeros.
pub open spec fn decimal(n: nat) -> Seq<u8>
    decreases n,
{
    if n < 10 {
        seq![(48 + n) as u8]
    } else {
        decimal(n / 10).push((48 + n % 10) as u8)
    }
}

/// The decimal rendering of `n`.
pub fn itoa(n: u64) -> (r: Vec<u8>)
    ensures
        r@ == decimal(n as nat),
    decreases n,
{
    if n < 10 {
        let mut v: Vec<u8> = Vec::new();
        v.push(48u8 + n as u8);
        v
    } else {
        let mut v = itoa(n / 10);
        v.push(48u8 + (n % 10) as u8);
        v
    }
}

/// The strings of `items` with `d` between consecutive ones.
pub open spec fn join_spec(items: Seq<Seq<u8>>, d: u8) -> Seq<u8>
    decreases items.len(),
{
    if items.len() == 0 {
        Seq::empty()
    } else if items.len() == 1 {
        items[0]
    } else {
        join_spec(items.drop_last(), d).push(d) + items.last()
    }
}

/// Append `bytes` to `out`.
pub fn push_bytes(out: &mut Vec<u8>, bytes: &[u8])
    ensures
        final(out)@ == old(out)@ + bytes@,
{
    let mut i: usize = 0;
    while i < bytes.len()
        invariant
            i <= bytes@.len(),
            out@ == old(out)@ + bytes@.take(i as int),
        decreases bytes@.len() - i,
    {
        out.push(bytes[i]);
        i = i + 1;
        proof {
            assert(bytes@.take(i as int) =~= bytes@.take(i - 1).push(bytes@[i - 1]));
        }
    }
    proof {
        assert(bytes@.take(bytes@.len() as int) =~= bytes@);
    }
}

/// Append the strings of `items` to `out`, with `delim` between consecutive ones.
pub fn join(items: &Vec<Vec<u8>>, delim: u8, out: &mut Vec<u8>)
    ensures
        final(out)@ == old(out)@ + join_spec(views(items@), delim),
{
    let ghost v = views(items@);
    let mut i: usize = 0;
    while i < items.len()
        invariant
            v == views(items@),
            i <= items@.len(),
            out@ == old(out)@ + join_spec(v.take(i as int), delim),
        decreases items@.len() - i,
    {
        let ghost before = out@;
        if i > 0 {
            out.push(delim);
        }
        push_bytes(out, items[i].as_slice());
        proof {
            let t = v.take(i + 1);
            assert(t.drop_last() =~= v.take(i as int));
            assert(t.last() == items@[i as int]@);
            if i == 0 {
                assert(join_spec(v.take(0), delim) =~= Seq::<u8>::empty());
                assert(join_spec(t, delim) == t[0]);
            }
            assert(out@ =~= old(out)@ + join_spec(t, delim));
        }
        i = i + 1;
    }
    proof {
        assert(v.take(items@.len() as int) =~= v);
    }
}

// ---------------------------------------------------------------------
// Accumulators
// ---------------------------------------------------------------------

/// What a cell has collected: how many lines, or the value field of each
/// line in order. A numeric cell keeps the bytes of its values; turning them
/// into numbers is left to the caller.
#[derive(Debug)]
pub enum Acc {
    Count(u64),
    Nums { op: Op, vals: Vec<Vec<u8>> },
    Strs { op: Op, vals: Vec<Vec<u8>> },
}

/// The contents of an accumulator.
pub enum AccView {
    Count(nat),
    Nums(Op, Seq<Seq<u8>>),
    Strs(Op, Seq<Seq<u8>>),
}

impl View for Acc {
    type V = AccView;

    open spec fn view(&self) -> AccView {
        match self {
            Acc::Count(n) => AccView::Count(*n as nat),
            Acc::Nums { op, vals } => AccView::Nums(*op, views(vals@)),
            Acc::Strs { op, vals } => AccView::Strs(*op, views(vals@)),
        }
    }
}

/// A fresh accumulator for cells filled by `op` (counting when there is none).
pub open spec fn acc_new(op: Option<Op>) -> AccView {
    match op {
        None => AccView::Count(0),
        Some(op) => if op == Op::Count {
            AccView::Count(0)
        } else if op_numeric(op) {
            AccView::Nums(op, Seq::empty())
        } else {
            AccView::Strs(op, Seq::empty())
        },
    }
}

/// One more line counted (only a counting accumulator changes).
pub open spec fn acc_bump(a: AccView) -> AccView {
    match a {
        AccView::Count(n) => AccView::Count(n + 1),
        _ => a,
    }
}

/// One more value collected: a counting accumulator counts it.
pub open spec fn acc_add(a: AccView, raw: Seq<u8>) -> AccView {
    match a {
        AccView::Count(n) => AccView::Count(n + 1),
        AccView::Nums(op, vals) => AccView::Nums(op, vals.push(raw)),
        AccView::Strs(op, vals) => AccView::Strs(op, vals.push(raw)),
    }
}

/// An accumulator pairs each operation with the right kind of collection.
pub open spec fn acc_wf(a: AccView) -> bool {
    match a {
        AccView::Count(_) => true,
        AccView::Nums(op, _) => op_numeric(op),
        AccView::Strs(op, _) => !op_numeric(op) && op != Op::Count,
    }
}

/// An accumulator can be rendered as text by this library: it is not numeric,
/// and a first/last cell has a value to show.
pub open spec fn acc_renderable(a: AccView) -> bool {
    &&& acc_wf(a)
    &&& !(a is Nums)
    &&& (a matches AccView::Strs(op, vals) ==> (op == Op::First || op == Op::Last ==> vals.len()
        > 0))
}

/// The text of a textual cell.
pub open spec fn render_str_spec(op: Op, vals: Seq<Seq<u8>>, d: u8) -> Seq<u8> {
    if op == Op::First {
        vals[0]
    } else if op == Op::Last {
        vals.last()
    } else if op == Op::Collapse {
        join_spec(vals, d)
    } else if op == Op::Unique {
        join_spec(sorted_set_of(vals), d)
    } else {
        decimal(sorted_set_of(vals).len())
    }
}

/// The text of a counting or textual cell.
pub open spec fn render_spec(a: AccView, d: u8) -> Seq<u8> {
    match a {
        AccView::Count(n) => decimal(n),
        AccView::Strs(op, vals) => render_str_spec(op, vals, d),
        AccView::Nums(_, _) => Seq::empty(),
    }
}

impl Acc {
    /// A fresh accumulator for cells filled by `op`.
    pub fn new(op: Option<Op>) -> (a: Acc)
        ensures
            a@ == acc_new(op),
            acc_wf(a@),
    {
        match op {
            None => Acc::Count(0),
            Some(Op::Count) => Acc::Count(0),
            Some(op) => {
                if op.numeric() {
                    let vals: Vec<Vec<u8>> = Vec::new();
                    proof {
                        assert(views(vals@) =~= Seq::<Seq<u8>>::empty());
                    }
                    Acc::Nums { op, vals }
                } else {
                    let vals: Vec<Vec<u8>> = Vec::new();
                    proof {
                        assert(views(vals@) =~= Seq::<Seq<u8>>::empty());
                    }
                    Acc::Strs { op, vals }
                }
            },
        }
    }

    /// Count one more line.
    pub fn bump(&mut self)
        requires
            old(self)@ matches AccView::Count(n) ==> n < u64::MAX,
        ensures
            final(self)@ == acc_bump(old(self)@),
    {
        match self {
            Acc::Count(n) => {
                *n = *n + 1;
            },
            _ => {},
        }
    }

    /// Collect the value `raw` of one more line.
    pub fn push(&mut self, raw: &[u8])
        requires
            old(self)@ matches AccView::Count(n) ==> n < u64::MAX,
        ensures
            final(self)@ == acc_add(old(self)@, raw@),
    {
        match self {
            Acc::Count(n) => {
                *n = *n + 1;
            },
            Acc::Nums { vals, .. } => {
                let ghost before = vals@;
                vals.push(vstd::slice::slice_to_vec(raw));
                proof {
                    assert(views(vals@) =~= views(before).push(raw@));
                }
            },
            Acc::Strs { vals, .. } => {
                let ghost before = vals@;
                vals.push(vstd::slice::slice_to_vec(raw));
                proof {
                    assert(views(vals@) =~= views(before).push(raw@));
                }
            },
        }
    }

    /// Append the text of a counting or textual cell to `out`.
    pub fn render(&self, collapse_delim: u8, out: &mut Vec<u8>)
        requires
            acc_renderable(self@),
        ensures
            final(out)@ == old(out)@ + render_spec(self@, collapse_delim),
    {
        match self {
            Acc::Count(n) => {
                let digits = itoa(*n);
                push_bytes(out, digits.as_slice());
            },
            Acc::Strs { op, vals } => {
                render_str(*op, vals, collapse_delim, out);
            },
            Acc::Nums { .. } => {},
        }
    }
}

/// The sorted set of the strings of `vals`.
fn sorted_set(vals: &Vec<Vec<u8>>) -> (set: Vec<Vec<u8>>)
    ensures
        views(set@) == sorted_set_of(views(vals@)),
{
    let ghost v = views(vals@);
    let mut set: Vec<Vec<u8>> = Vec::new();
    let mut i: usize = 0;
    proof {
        assert(v.take(0) =~= Seq::<Seq<u8>>::empty());
        assert(views(set@) =~= Seq::<Seq<u8>>::empty());
    }
    while i < vals.len()
        invariant
            v == views(vals@),
            i <= vals@.len(),
            views(set@) == sorted_set_of(v.take(i as int)),
            strictly_sorted(views(set@)),
        decreases vals@.len() - i,
    {
        intern(&mut set, vals[i].as_slice());
        proof {
            let t = v.take(i + 1);
            assert(t.drop_last() =~= v.take(i as int));
            assert(t.last() == vals@[i as int]@);
        }
        i = i + 1;
    }
    proof {
        assert(v.take(vals@.len() as int) =~= v);
    }
    set
}

/// Append the text of a textual cell filled by `op` with `vals` to `out`.
pub fn render_str(op: Op, vals: &Vec<Vec<u8>>, delim: u8, out: &mut Vec<u8>)
    requires
        !op_numeric(op),
        op != Op::Count,
        op == Op::First || op == Op::Last ==> vals@.len() > 0,
    ensures
        final(out)@ == old(out)@ + render_str_spec(op, views(vals@), delim),
{
    match op {
        Op::First => push_bytes(out, vals[0].as_slice()),
        Op::Last => push_bytes(out, vals[vals.len() - 1].as_slice()),
        Op::Collapse => join(vals, delim, out),
        Op::Unique => {
            let set = sorted_set(vals);
            join(&set, delim, out);
        },
        _ => {
            let set = sorted_set(vals);
            let digits = itoa(set.len() as u64);
            push_bytes(out, digits.as_slice());
        },
    }
}

} // verus!
