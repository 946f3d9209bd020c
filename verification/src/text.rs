//! Byte-level text handling: splitting a line into fields, comparing byte
//! strings in byte (lexicographic) order, and keeping sorted label sets.
use vstd::prelude::*;

verus! {

// ---------------------------------------------------------------------
// Splitting
// ---------------------------------------------------------------------

/// The pieces of `s` between the occurrences of `d`, in order. There is
/// always at least one piece: `d` occurring k times gives k + 1 pieces.
pub open spec fn split_on<A>(s: Seq<A>, d: A) -> Seq<Seq<A>>
    decreases s.len(),
{
    if s.len() == 0 {
        seq![Seq::<A>::empty()]
    } else {
        let prev = split_on(s.drop_last(), d);
        if s.last() == d {
            prev.push(Seq::<A>::empty())
        } else {
            prev.update(prev.len() - 1, prev.last().push(s.last()))
        }
    }
}

/// The fields of a line: none for an empty line, otherwise the pieces
/// between delimiters.
pub open spec fn fields_of(line: Seq<u8>, d: u8) -> Seq<Seq<u8>> {
    if line.len() == 0 {
        Seq::empty()
    } else {
        split_on(line, d)
    }
}

/// `spans` are byte ranges of `line` whose contents are exactly `pieces`.
pub open spec fn spans_cover(line: Seq<u8>, spans: Seq<(usize, usize)>, pieces: Seq<Seq<u8>>) -> bool {
    &&& spans.len() == pieces.len()
    &&& forall|j: int|
        0 <= j < spans.len() ==> {
            &&& (#[trigger] spans[j]).0 <= spans[j].1 <= line.len()
            &&& line.subrange(spans[j].0 as int, spans[j].1 as int) == pieces[j]
        }
}

/// `split_on` never yields an empty list of pieces.
pub proof fn lemma_split_on_nonempty<A>(s: Seq<A>, d: A)
    ensures
        split_on(s, d).len() >= 1,
    decreases s.len(),
{
    if s.len() > 0 {
        lemma_split_on_nonempty(s.drop_last(), d);
    }
}

/// Where `d` occurs nowhere in `s`, `s` is the only piece.
pub proof fn lemma_split_on_none<A>(s: Seq<A>, d: A)
    requires
        forall|k: int| 0 <= k < s.len() ==> s[k] != d,
    ensures
        split_on(s, d) == seq![s],
    decreases s.len(),
{
    if s.len() > 0 {
        lemma_split_on_none(s.drop_last(), d);
        assert(s.drop_last().push(s.last()) =~= s);
        assert(seq![s.drop_last()].update(0, s.drop_last().push(s.last())) =~= seq![s]);
    } else {
        assert(s =~= Seq::<A>::empty());
    }
}

/// Splitting at the last occurrence `p` of `d`: the pieces before it, then
/// everything after it.
pub proof fn lemma_split_on_last<A>(s: Seq<A>, d: A, p: int)
    requires
        0 <= p < s.len(),
        s[p] == d,
        forall|k: int| p < k < s.len() ==> s[k] != d,
    ensures
        split_on(s, d) == split_on(s.take(p), d).push(s.skip(p + 1)),
    decreases s.len(),
{
    if p == s.len() - 1 {
        assert(s.drop_last() =~= s.take(p));
        assert(s.skip(p + 1) =~= Seq::<A>::empty());
    } else {
        lemma_split_on_last(s.drop_last(), d, p);
        assert(s.drop_last().take(p) =~= s.take(p));
        let prev = split_on(s.take(p), d).push(s.drop_last().skip(p + 1));
        assert(s.drop_last().skip(p + 1).push(s.last()) =~= s.skip(p + 1));
        assert(prev.update(prev.len() - 1, prev.last().push(s.last())) =~= split_on(s.take(p), d).push(
            s.skip(p + 1),
        ));
    }
}

/// Where the fields of `line` lie: an empty line has none; otherwise the
/// first starts at 0, the last ends at the line's end, each other ends at a
/// delimiter and the next starts just after it, and no field holds a
/// delimiter. (Opaque, as callers rarely need it: `reveal(spans_tile)`.)
#[verifier::opaque]
pub open spec fn spans_tile(line: Seq<u8>, spans: Seq<(usize, usize)>, d: u8) -> bool {
    &&& line.len() == 0 ==> spans.len() == 0
    &&& line.len() > 0 ==> spans.len() > 0 && spans[0].0 == 0 && spans.last().1 == line.len()
    &&& forall|j: int|
        0 <= j < spans.len() - 1 ==> (#[trigger] spans[j]).1 < line.len() && line[spans[j].1 as int]
            == d
    &&& forall|j: int, k: int|
        #![trigger spans[j], spans[k]]
        0 <= j && k == j + 1 && k < spans.len() ==> spans[k].0 == spans[j].1 + 1
    &&& forall|j: int|
        0 <= j < spans.len() ==> !line.subrange(
            (#[trigger] spans[j]).0 as int,
            spans[j].1 as int,
        ).contains(d)
}

/// Compute the byte ranges of the `delim`-separated fields of `line` into
/// `out` (cleared first). An empty line has no fields.
pub fn split_fields(line: &[u8], delim: u8, out: &mut Vec<(usize, usize)>)
    ensures
        spans_cover(line@, final(out)@, fields_of(line@, delim)),
        spans_tile(line@, final(out)@, delim),
{
    out.clear();
    proof {
        reveal(spans_tile);
    }
    if line.len() == 0 {
        return;
    }
    let mut start: usize = 0;
    let mut i: usize = 0;
    proof {
        assert(line@.take(0) =~= Seq::<u8>::empty());
        assert(line@.subrange(0, 0) =~= Seq::<u8>::empty());
    }
    while i < line.len()
        invariant
            start <= i <= line@.len(),
            out@.len() + 1 == split_on(line@.take(i as int), delim).len(),
            forall|j: int|
                0 <= j < out@.len() ==> {
                    &&& (#[trigger] out@[j]).0 <= out@[j].1 <= i
                    &&& line@.subrange(out@[j].0 as int, out@[j].1 as int) == split_on(
                        line@.take(i as int),
                        delim,
                    )[j]
                },
            split_on(line@.take(i as int), delim).last() == line@.subrange(start as int, i as int),
            out@.len() == 0 ==> start == 0,
            out@.len() > 0 ==> out@[0].0 == 0 && out@.last().1 < line@.len() && line@[out@.last().1 as int]
                == delim && start == out@.last().1 + 1,
            forall|j: int|
                0 <= j < out@.len() - 1 ==> (#[trigger] out@[j]).1 < line@.len() && line@[out@[j].1 as int]
                    == delim,
            forall|j: int, k: int|
                #![trigger out@[j], out@[k]]
                0 <= j && k == j + 1 && k < out@.len() ==> out@[k].0 == out@[j].1 + 1,
            forall|j: int, k: int|
                #![trigger out@[j], line@[k]]
                0 <= j < out@.len() && out@[j].0 <= k < out@[j].1 ==> line@[k] != delim,
            forall|k: int| start <= k < i ==> line@[k] != delim,
        decreases line@.len() - i,
    {
        let ghost prev = split_on(line@.take(i as int), delim);
        proof {
            lemma_split_on_nonempty(line@.take(i as int), delim);
            assert(line@.take(i + 1).drop_last() =~= line@.take(i as int));
            assert(line@.take(i + 1).last() == line@[i as int]);
        }
        if line[i] == delim {
            out.push((start, i));
            start = i + 1;
            proof {
                assert(line@.subrange(start as int, (i + 1) as int) =~= Seq::<u8>::empty());
            }
        } else {
            proof {
                assert(line@.subrange(start as int, (i + 1) as int) =~= line@.subrange(
                    start as int,
                    i as int,
                ).push(line@[i as int]));
            }
        }
        i = i + 1;
    }
    out.push((start, line.len()));
    proof {
        assert(line@.take(line@.len() as int) =~= line@);
        assert forall|j: int| 0 <= j < out@.len() implies !line@.subrange(
            (#[trigger] out@[j]).0 as int,
            out@[j].1 as int,
        ).contains(delim) by {
            let piece = line@.subrange(out@[j].0 as int, out@[j].1 as int);
            if piece.contains(delim) {
                let m = choose|m: int| 0 <= m < piece.len() && piece[m] == delim;
                assert(line@[out@[j].0 + m] == delim);
            }
        }
    }
}

/// The bytes of field number `idx1` (1-based) of `line`, given its spans.
pub fn field<'a>(line: &'a [u8], spans: &Vec<(usize, usize)>, idx1: usize) -> (r: &'a [u8])
    requires
        1 <= idx1 <= spans@.len(),
        spans@[idx1 - 1].0 <= spans@[idx1 - 1].1 <= line@.len(),
    ensures
        r@ == line@.subrange(spans@[idx1 - 1].0 as int, spans@[idx1 - 1].1 as int),
{
    let (s, e) = spans[idx1 - 1];
    &line[s..e]
}

// ---------------------------------------------------------------------
// Byte order
// ---------------------------------------------------------------------

/// Byte (lexicographic) order on byte strings: `a` sorts strictly before `b`.
pub open spec fn seq_lt(a: Seq<u8>, b: Seq<u8>) -> bool
    decreases a.len(),
{
    if b.len() == 0 {
        false
    } else if a.len() == 0 {
        true
    } else if a[0] != b[0] {
        a[0] < b[0]
    } else {
        seq_lt(a.drop_first(), b.drop_first())
    }
}

/// Byte order is irreflexive.
pub proof fn lemma_lt_irreflexive(a: Seq<u8>)
    ensures
        !seq_lt(a, a),
    decreases a.len(),
{
    if a.len() > 0 {
        lemma_lt_irreflexive(a.drop_first());
    }
}

/// Byte order is asymmetric.
pub proof fn lemma_lt_asymmetric(a: Seq<u8>, b: Seq<u8>)
    ensures
        seq_lt(a, b) ==> !seq_lt(b, a),
    decreases a.len(),
{
    if a.len() > 0 && b.len() > 0 && a[0] == b[0] {
        lemma_lt_asymmetric(a.drop_first(), b.drop_first());
    }
}

/// Byte order is transitive.
pub proof fn lemma_lt_transitive(a: Seq<u8>, b: Seq<u8>, c: Seq<u8>)
    ensures
        seq_lt(a, b) && seq_lt(b, c) ==> seq_lt(a, c),
    decreases a.len(),
{
    if a.len() > 0 && b.len() > 0 && c.len() > 0 && a[0] == b[0] && b[0] == c[0] {
        lemma_lt_transitive(a.drop_first(), b.drop_first(), c.drop_first());
    }
}

/// Byte order is total: distinct strings are ordered one way or the other.
pub proof fn lemma_lt_total(a: Seq<u8>, b: Seq<u8>)
    ensures
        a != b ==> seq_lt(a, b) || seq_lt(b, a),
    decreases a.len(),
{
    if a.len() == 0 || b.len() == 0 {
        if a.len() == 0 && b.len() == 0 {
            assert(a =~= b);
        }
    } else if a[0] == b[0] {
        lemma_lt_total(a.drop_first(), b.drop_first());
        if a.drop_first() == b.drop_first() {
            assert(a =~= seq![a[0]] + a.drop_first());
            assert(b =~= seq![b[0]] + b.drop_first());
        }
    }
}

/// Comparing two strings that agree on their first `i` bytes is comparing
/// what follows.
pub proof fn lemma_lt_skip(a: Seq<u8>, b: Seq<u8>, i: int)
    requires
        0 <= i <= a.len(),
        i <= b.len(),
        a.take(i) == b.take(i),
    ensures
        seq_lt(a, b) == seq_lt(a.skip(i), b.skip(i)),
    decreases i,
{
    if i > 0 {
        assert(a[0] == a.take(i)[0]);
        assert(b[0] == b.take(i)[0]);
        assert(a.drop_first().take(i - 1) =~= a.take(i).drop_first());
        assert(b.drop_first().take(i - 1) =~= b.take(i).drop_first());
        lemma_lt_skip(a.drop_first(), b.drop_first(), i - 1);
        assert(a.drop_first().skip(i - 1) =~= a.skip(i));
        assert(b.drop_first().skip(i - 1) =~= b.skip(i));
    } else {
        assert(a.skip(0) =~= a);
        assert(b.skip(0) =~= b);
    }
}

/// Where one byte string stands relative to another in byte order.
#[derive(Clone, Copy, Debug, PartialEq, Eq, Structural)]
pub enum ByteOrder {
    Before,
    Same,
    After,
}

/// Compare `a` with `b` in byte order.
pub fn compare_bytes(a: &[u8], b: &[u8]) -> (r: ByteOrder)
    ensures
        (r == ByteOrder::Before) == seq_lt(a@, b@),
        (r == ByteOrder::Same) == (a@ == b@),
        (r == ByteOrder::After) == seq_lt(b@, a@),
{
    let mut i: usize = 0;
    while i < a.len() && i < b.len()
        invariant
            i <= a@.len(),
            i <= b@.len(),
            a@.take(i as int) == b@.take(i as int),
        decreases a@.len() - i,
    {
        if a[i] != b[i] {
            proof {
                lemma_lt_skip(a@, b@, i as int);
                lemma_lt_skip(b@, a@, i as int);
                assert(a@.skip(i as int)[0] == a@[i as int]);
                assert(b@.skip(i as int)[0] == b@[i as int]);
                assert(a@[i as int] != b@[i as int]);
                assert(a@ != b@);
            }
            if a[i] < b[i] {
                return ByteOrder::Before;
            } else {
                return ByteOrder::After;
            }
        }
        proof {
            assert(a@.take(i + 1) =~= a@.take(i as int).push(a@[i as int]));
            assert(b@.take(i + 1) =~= b@.take(i as int).push(b@[i as int]));
        }
        i = i + 1;
    }
    proof {
        lemma_lt_skip(a@, b@, i as int);
        lemma_lt_skip(b@, a@, i as int);
        if a@.len() == b@.len() {
            assert(a@ =~= a@.take(i as int));
            assert(b@ =~= b@.take(i as int));
        } else {
            assert(a@.len() != b@.len() ==> a@ != b@);
        }
    }
    if a.len() < b.len() {
        ByteOrder::Before
    } else if a.len() == b.len() {
        ByteOrder::Same
    } else {
        ByteOrder::After
    }
}

/// Whether two byte strings are equal.
pub fn bytes_equal(a: &[u8], b: &[u8]) -> (r: bool)
    ensures
        r == (a@ == b@),
{
    match compare_bytes(a, b) {
        ByteOrder::Same => true,
        _ => false,
    }
}

// ---------------------------------------------------------------------
// Sorted label sets
// ---------------------------------------------------------------------

/// Each string sorts strictly before the next: sorted, and no string twice.
pub open spec fn strictly_sorted(s: Seq<Seq<u8>>) -> bool {
    forall|i: int, j: int| 0 <= i < j < s.len() ==> seq_lt(#[trigger] s[i], #[trigger] s[j])
}

/// `x` added to the sorted set `s`, in its place; `s` itself if `x` is there.
pub open spec fn sorted_insert(s: Seq<Seq<u8>>, x: Seq<u8>) -> Seq<Seq<u8>>
    decreases s.len(),
{
    if s.len() == 0 {
        seq![x]
    } else if x == s[0] {
        s
    } else if seq_lt(x, s[0]) {
        seq![x] + s
    } else {
        seq![s[0]] + sorted_insert(s.drop_first(), x)
    }
}

/// The sorted set of the strings of `vals`, each once.
pub open spec fn sorted_set_of(vals: Seq<Seq<u8>>) -> Seq<Seq<u8>>
    decreases vals.len(),
{
    if vals.len() == 0 {
        Seq::empty()
    } else {
        sorted_insert(sorted_set_of(vals.drop_last()), vals.last())
    }
}

/// The views of a vector of byte vectors.
pub open spec fn views(v: Seq<Vec<u8>>) -> Seq<Seq<u8>> {
    v.map_values(|x: Vec<u8>| x@)
}

/// Where a scan stops, `sorted_insert` keeps or inserts `x`.
proof fn lemma_sorted_insert_at(s: Seq<Seq<u8>>, x: Seq<u8>, i: int)
    requires
        strictly_sorted(s),
        0 <= i <= s.len(),
        forall|j: int| 0 <= j < i ==> seq_lt(#[trigger] s[j], x),
        i < s.len() ==> !seq_lt(s[i], x),
    ensures
        sorted_insert(s, x) == (if i < s.len() && s[i] == x {
            s
        } else {
            s.insert(i, x)
        }),
    decreases i,
{
    if s.len() == 0 {
        assert(s.insert(0, x) =~= seq![x]);
    } else if i == 0 {
        if x != s[0] {
            lemma_lt_total(x, s[0]);
            assert(seq![x] + s =~= s.insert(0, x));
        }
    } else {
        lemma_lt_asymmetric(s[0], x);
        lemma_lt_irreflexive(x);
        let t = s.drop_first();
        assert forall|j: int| 0 <= j < i - 1 implies seq_lt(#[trigger] t[j], x) by {
            assert(t[j] == s[j + 1]);
        }
        lemma_sorted_insert_at(t, x, i - 1);
        if i < s.len() && s[i] == x {
            assert(t[i - 1] == s[i]);
            assert(seq![s[0]] + t =~= s);
        } else {
            if i < s.len() {
                assert(t[i - 1] == s[i]);
            }
            assert(seq![s[0]] + t.insert(i - 1, x) =~= s.insert(i, x));
        }
    }
}

/// Inserting into a sorted set keeps it sorted, and adds exactly `x`.
pub proof fn lemma_sorted_insert_sorted(s: Seq<Seq<u8>>, x: Seq<u8>)
    requires
        strictly_sorted(s),
    ensures
        strictly_sorted(sorted_insert(s, x)),
        sorted_insert(s, x).to_set() == s.to_set().insert(x),
    decreases s.len(),
{
    let r = sorted_insert(s, x);
    if s.len() == 0 {
        assert(r.to_set() =~= s.to_set().insert(x)) by {
            assert(r[0] == x);
        }
    } else if x == s[0] {
        assert(r.to_set() =~= s.to_set().insert(x)) by {
            assert(s.contains(s[0]));
        }
    } else if seq_lt(x, s[0]) {
        assert forall|i: int, j: int| 0 <= i < j < r.len() implies seq_lt(#[trigger] r[i], #[trigger] r[j]) by {
            if i == 0 {
                assert(r[j] == s[j - 1]);
                if j - 1 > 0 {
                    lemma_lt_transitive(x, s[0], s[j - 1]);
                }
            } else {
                assert(r[i] == s[i - 1]);
                assert(r[j] == s[j - 1]);
            }
        }
        assert(r.to_set() =~= s.to_set().insert(x)) by {
            assert forall|y| r.to_set().contains(y) implies s.to_set().insert(x).contains(y) by {
                let k = choose|k: int| 0 <= k < r.len() && r[k] == y;
                if k > 0 {
                    assert(s[k - 1] == y);
                }
            }
            assert forall|y| s.to_set().insert(x).contains(y) implies r.to_set().contains(y) by {
                if y != x {
                    let k = choose|k: int| 0 <= k < s.len() && s[k] == y;
                    assert(r[k + 1] == y);
                } else {
                    assert(r[0] == x);
                }
            }
        }
    } else {
        let t = s.drop_first();
        assert(strictly_sorted(t)) by {
            assert forall|i: int, j: int| 0 <= i < j < t.len() implies seq_lt(#[trigger] t[i], #[trigger] t[j]) by {
                assert(t[i] == s[i + 1]);
                assert(t[j] == s[j + 1]);
            }
        }
        lemma_sorted_insert_sorted(t, x);
        let rt = sorted_insert(t, x);
        lemma_lt_total(x, s[0]);
        assert forall|i: int, j: int| 0 <= i < j < r.len() implies seq_lt(#[trigger] r[i], #[trigger] r[j]) by {
            if i == 0 {
                assert(r[j] == rt[j - 1]);
                assert(rt.to_set().contains(rt[j - 1]));
                assert(s.to_set().insert(x).contains(rt[j - 1]));
                if rt[j - 1] != x {
                    let k = choose|k: int| 0 <= k < t.len() && t[k] == rt[j - 1];
                    assert(t[k] == s[k + 1]);
                }
            } else {
                assert(r[i] == rt[i - 1]);
                assert(r[j] == rt[j - 1]);
            }
        }
        assert(r.to_set() =~= s.to_set().insert(x)) by {
            assert forall|y| r.to_set().contains(y) implies s.to_set().insert(x).contains(y) by {
                let k = choose|k: int| 0 <= k < r.len() && r[k] == y;
                if k > 0 {
                    assert(rt[k - 1] == y);
                    assert(rt.to_set().contains(y));
                    if y != x {
                        let m = choose|m: int| 0 <= m < t.len() && t[m] == y;
                        assert(s[m + 1] == y);
                    }
                } else {
                    assert(s[0] == y);
                }
            }
            assert forall|y| s.to_set().insert(x).contains(y) implies r.to_set().contains(y) by {
                if y == s[0] {
                    assert(r[0] == y);
                } else if y == x {
                    assert(rt.to_set().contains(x));
                    let m = choose|m: int| 0 <= m < rt.len() && rt[m] == x;
                    assert(r[m + 1] == x);
                } else {
                    let k = choose|k: int| 0 <= k < s.len() && s[k] == y;
                    assert(k > 0);
                    assert(t[k - 1] == y);
                    assert(t.to_set().insert(x).contains(y));
                    let m = choose|m: int| 0 <= m < rt.len() && rt[m] == y;
                    assert(r[m + 1] == y);
                }
            }
        }
    }
}

/// Add `key` to the sorted label set `table`, unless it is already there.
pub fn intern(table: &mut Vec<Vec<u8>>, key: &[u8])
    requires
        strictly_sorted(views(old(table)@)),
    ensures
        views(final(table)@) == sorted_insert(views(old(table)@), key@),
        strictly_sorted(views(final(table)@)),
        views(old(table)@).contains(key@) ==> views(final(table)@) == views(old(table)@),
        !views(old(table)@).contains(key@) ==> views(final(table)@).len() == views(
            old(table)@,
        ).len() + 1,
        views(final(table)@).to_set() == views(old(table)@).to_set().insert(key@),
{
    let ghost s = views(table@);
    let mut lo: usize = 0;
    let mut hi: usize = table.len();
    let mut found = false;
    while lo < hi
        invariant_except_break
            lo <= hi <= table@.len(),
            forall|j: int| hi <= j < s.len() ==> seq_lt(key@, #[trigger] s[j]),
            !found,
        invariant
            s == views(table@),
            strictly_sorted(s),
            lo <= table@.len(),
            forall|j: int| 0 <= j < lo ==> seq_lt(#[trigger] s[j], key@),
        ensures
            s == views(table@),
            lo <= table@.len(),
            forall|j: int| 0 <= j < lo ==> seq_lt(#[trigger] s[j], key@),
            found ==> lo < table@.len() && s[lo as int] == key@,
            !found ==> lo == table@.len() || seq_lt(key@, s[lo as int]),
        decreases hi - lo,
    {
        let mid = lo + (hi - lo) / 2;
        match compare_bytes(table[mid].as_slice(), key) {
            ByteOrder::Before => {
                proof {
                    assert forall|j: int| 0 <= j <= mid implies seq_lt(#[trigger] s[j], key@) by {
                        if j < mid {
                            assert(seq_lt(s[j], s[mid as int]));
                            lemma_lt_transitive(s[j], s[mid as int], key@);
                        }
                    }
                }
                lo = mid + 1;
            },
            ByteOrder::Same => {
                proof {
                    assert forall|j: int| 0 <= j < mid implies seq_lt(#[trigger] s[j], key@) by {
                        assert(seq_lt(s[j], s[mid as int]));
                    }
                }
                lo = mid;
                found = true;
                break ;
            },
            ByteOrder::After => {
                proof {
                    assert forall|j: int| mid <= j < s.len() implies seq_lt(key@, #[trigger] s[j]) by {
                        if j > mid {
                            assert(seq_lt(s[mid as int], s[j]));
                            lemma_lt_transitive(key@, s[mid as int], s[j]);
                        }
                    }
                }
                hi = mid;
            },
        }
    }
    let i = lo;
    proof {
        if i < table@.len() && !found {
            lemma_lt_asymmetric(key@, s[i as int]);
        }
        if found {
            lemma_lt_irreflexive(key@);
        }
        lemma_sorted_insert_at(s, key@, i as int);
        lemma_sorted_insert_sorted(s, key@);
        if !found {
            assert forall|j: int| 0 <= j < s.len() implies #[trigger] s[j] != key@ by {
                lemma_lt_irreflexive(key@);
                if j > i {
                    assert(seq_lt(s[i as int], s[j]));
                    lemma_lt_transitive(key@, s[i as int], s[j]);
                }
            }
        }
    }
    if !found {
        let v = vstd::slice::slice_to_vec(key);
        table.insert(i, v);
        proof {
            assert(views(table@) =~= s.insert(i as int, key@));
        }
    }
}

} // verus!
