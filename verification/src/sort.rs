//! Ordering lines by their (row, column) key, keeping lines with equal keys
//! in input order.
use vstd::prelude::*;

use crate::text::{
    ByteOrder, compare_bytes, fields_of, lemma_lt_asymmetric, lemma_lt_irreflexive,
    lemma_lt_total, lemma_lt_transitive, seq_lt, spans_cover, split_fields,
};
use crate::Config;

verus! {

/// Field number `idx1` (1-based) of `fs`, empty where there is none.
pub open spec fn field_or_empty(fs: Seq<Seq<u8>>, idx1: int) -> Seq<u8> {
    if 1 <= idx1 <= fs.len() {
        fs[idx1 - 1]
    } else {
        Seq::empty()
    }
}

/// The key a line is sorted by: its row and column fields.
pub open spec fn line_key(cfg: Config, line: Seq<u8>) -> (Seq<u8>, Seq<u8>) {
    let fs = fields_of(line, cfg.delim);
    (field_or_empty(fs, cfg.x as int), field_or_empty(fs, cfg.y as int))
}

/// Key order: by row field, then by column field, each in byte order.
pub open spec fn key_lt(a: (Seq<u8>, Seq<u8>), b: (Seq<u8>, Seq<u8>)) -> bool {
    seq_lt(a.0, b.0) || (a.0 == b.0 && seq_lt(a.1, b.1))
}

/// Line `i` comes before line `j`: a smaller key, or the same key and earlier.
pub open spec fn pos_before(keys: Seq<(Seq<u8>, Seq<u8>)>, i: int, j: int) -> bool {
    key_lt(keys[i], keys[j]) || (keys[i] == keys[j] && i < j)
}

/// The positions `p` are listed in key order, equal keys in input order.
pub open spec fn in_key_order(keys: Seq<(Seq<u8>, Seq<u8>)>, p: Seq<usize>) -> bool {
    forall|a: int, b: int|
        0 <= a < b < p.len() ==> pos_before(keys, #[trigger] p[a] as int, #[trigger] p[b] as int)
}

/// Every position appears in `p`, and `p` lists them in key order.
pub open spec fn is_key_order(keys: Seq<(Seq<u8>, Seq<u8>)>, p: Seq<usize>) -> bool {
    &&& p.len() == keys.len()
    &&& in_key_order(keys, p)
    &&& forall|i: int| 0 <= i < p.len() ==> #[trigger] p[i] < keys.len()
    &&& forall|x: usize| x < keys.len() ==> #[trigger] p.contains(x)
}

/// The order in which lines with keys `keys` are read when sorting: by key,
/// lines with equal keys in input order.
pub open spec fn key_order(keys: Seq<(Seq<u8>, Seq<u8>)>) -> Seq<usize> {
    choose|p: Seq<usize>| is_key_order(keys, p)
}

/// Key order is a strict order.
pub proof fn lemma_key_lt(a: (Seq<u8>, Seq<u8>), b: (Seq<u8>, Seq<u8>), c: (Seq<u8>, Seq<u8>))
    ensures
        !key_lt(a, a),
        key_lt(a, b) ==> !key_lt(b, a),
        key_lt(a, b) && key_lt(b, c) ==> key_lt(a, c),
{
    lemma_lt_irreflexive(a.0);
    lemma_lt_irreflexive(a.1);
    lemma_lt_asymmetric(a.0, b.0);
    lemma_lt_asymmetric(a.1, b.1);
    lemma_lt_transitive(a.0, b.0, c.0);
    lemma_lt_transitive(a.1, b.1, c.1);
}

/// `(cx, cy)` compared with `(x, y)` in key order.
pub fn compare_key(cx: &[u8], cy: &[u8], x: &[u8], y: &[u8]) -> (r: ByteOrder)
    ensures
        (r == ByteOrder::Before) == key_lt((cx@, cy@), (x@, y@)),
        (r == ByteOrder::Same) == ((cx@, cy@) == (x@, y@)),
        (r == ByteOrder::After) == key_lt((x@, y@), (cx@, cy@)),
{
    proof {
        lemma_key_lt((cx@, cy@), (x@, y@), (cx@, cy@));
        lemma_lt_irreflexive(cx@);
        lemma_lt_irreflexive(cy@);
    }
    match compare_bytes(cx, x) {
        ByteOrder::Same => compare_bytes(cy, y),
        other => other,
    }
}

/// `pos_before` is a strict order.
pub proof fn lemma_pos_before_strict(keys: Seq<(Seq<u8>, Seq<u8>)>, i: int, j: int, k: int)
    ensures
        !pos_before(keys, i, i),
        pos_before(keys, i, j) ==> !pos_before(keys, j, i),
        pos_before(keys, i, j) && pos_before(keys, j, k) ==> pos_before(keys, i, k),
{
    lemma_lt_irreflexive(keys[i].0);
    lemma_lt_irreflexive(keys[i].1);
    lemma_lt_asymmetric(keys[i].0, keys[j].0);
    lemma_lt_asymmetric(keys[i].1, keys[j].1);
    lemma_lt_irreflexive(keys[j].0);
    lemma_lt_irreflexive(keys[j].1);
    lemma_lt_transitive(keys[i].0, keys[j].0, keys[k].0);
    lemma_lt_transitive(keys[i].1, keys[j].1, keys[k].1);
    if keys[i] == keys[j] {
    }
}

/// Any two distinct positions are ordered one way or the other.
pub proof fn lemma_pos_before_total(keys: Seq<(Seq<u8>, Seq<u8>)>, i: int, j: int)
    requires
        i != j,
    ensures
        pos_before(keys, i, j) || pos_before(keys, j, i),
{
    lemma_lt_total(keys[i].0, keys[j].0);
    lemma_lt_total(keys[i].1, keys[j].1);
    if keys[i].0 == keys[j].0 && keys[i].1 == keys[j].1 {
        assert(keys[i] == keys[j]);
    }
}

/// Two key orders of the same lines agree on their first `k` positions.
proof fn lemma_key_order_prefix(
    keys: Seq<(Seq<u8>, Seq<u8>)>,
    p: Seq<usize>,
    q: Seq<usize>,
    k: int,
)
    requires
        is_key_order(keys, p),
        is_key_order(keys, q),
        0 <= k <= p.len(),
    ensures
        forall|j: int| 0 <= j < k ==> p[j] == q[j],
    decreases k,
{
    if k > 0 {
        lemma_key_order_prefix(keys, p, q, k - 1);
        let t = k - 1;
        assert(q.contains(p[t]));
        let m = choose|m: int| 0 <= m < q.len() && q[m] == p[t];
        assert(p.contains(q[t]));
        let m2 = choose|m: int| 0 <= m < p.len() && p[m] == q[t];
        lemma_pos_before_strict(keys, p[t] as int, q[t] as int, p[t] as int);
        lemma_pos_before_strict(keys, q[t] as int, p[t] as int, q[t] as int);
        if m < t {
            assert(p[m] == q[m]);
            assert(pos_before(keys, p[m] as int, p[t] as int));
        }
        if m2 < t {
            assert(p[m2] == q[m2]);
            assert(pos_before(keys, q[m2] as int, q[t] as int));
        }
        if m > t {
            assert(pos_before(keys, q[t] as int, q[m] as int));
            if m2 == t {
                assert(pos_before(keys, q[t] as int, q[m] as int));
            } else if m2 > t {
                assert(pos_before(keys, p[t] as int, p[m2] as int));
            }
        }
    }
}

/// There is only one key order.
pub proof fn lemma_key_order_unique(keys: Seq<(Seq<u8>, Seq<u8>)>, p: Seq<usize>, q: Seq<usize>)
    requires
        is_key_order(keys, p),
        is_key_order(keys, q),
    ensures
        p == q,
{
    lemma_key_order_prefix(keys, p, q, p.len() as int);
    assert(p =~= q);
}

/// `i` inserted into the key-ordered list `s`, in its place.
pub open spec fn insert_pos(keys: Seq<(Seq<u8>, Seq<u8>)>, s: Seq<usize>, i: usize) -> Seq<usize>
    decreases s.len(),
{
    if s.len() == 0 {
        seq![i]
    } else if pos_before(keys, i as int, s[0] as int) {
        seq![i] + s
    } else {
        seq![s[0]] + insert_pos(keys, s.drop_first(), i)
    }
}

/// Positions `0..n` inserted one by one into key order.
pub open spec fn insertion_order(keys: Seq<(Seq<u8>, Seq<u8>)>, n: nat) -> Seq<usize>
    decreases n,
{
    if n == 0 {
        Seq::empty()
    } else {
        insert_pos(keys, insertion_order(keys, (n - 1) as nat), (n - 1) as usize)
    }
}

proof fn lemma_insert_pos(keys: Seq<(Seq<u8>, Seq<u8>)>, s: Seq<usize>, i: usize)
    requires
        in_key_order(keys, s),
        !s.contains(i),
    ensures
        in_key_order(keys, insert_pos(keys, s, i)),
        insert_pos(keys, s, i).len() == s.len() + 1,
        forall|x: usize| #[trigger] insert_pos(keys, s, i).contains(x) <==> s.contains(x) || x == i,
    decreases s.len(),
{
    let r = insert_pos(keys, s, i);
    if s.len() == 0 {
        assert(r[0] == i);
        assert forall|x: usize| #[trigger] r.contains(x) <==> s.contains(x) || x == i by {
            if r.contains(x) {
                let k = choose|k: int| 0 <= k < r.len() && r[k] == x;
            }
        }
    } else if pos_before(keys, i as int, s[0] as int) {
        assert forall|a: int, b: int| 0 <= a < b < r.len() implies pos_before(keys, #[trigger] r[a] as int, #[trigger] r[b] as int) by {
            if a == 0 {
                assert(r[b] == s[b - 1]);
                if b - 1 > 0 {
                    lemma_pos_before_strict(keys, i as int, s[0] as int, s[b - 1] as int);
                }
            } else {
                assert(r[a] == s[a - 1]);
                assert(r[b] == s[b - 1]);
            }
        }
        assert forall|x: usize| #[trigger] r.contains(x) <==> s.contains(x) || x == i by {
            if r.contains(x) {
                let k = choose|k: int| 0 <= k < r.len() && r[k] == x;
                if k > 0 {
                    assert(s[k - 1] == x);
                }
            }
            if s.contains(x) {
                let k = choose|k: int| 0 <= k < s.len() && s[k] == x;
                assert(r[k + 1] == x);
            }
            if x == i {
                assert(r[0] == i);
            }
        }
    } else {
        let t = s.drop_first();
        assert(in_key_order(keys, t)) by {
            assert forall|a: int, b: int| 0 <= a < b < t.len() implies pos_before(keys, #[trigger] t[a] as int, #[trigger] t[b] as int) by {
                assert(t[a] == s[a + 1]);
                assert(t[b] == s[b + 1]);
            }
        }
        assert(!t.contains(i)) by {
            if t.contains(i) {
                let k = choose|k: int| 0 <= k < t.len() && t[k] == i;
                assert(s[k + 1] == i);
            }
        }
        lemma_insert_pos(keys, t, i);
        let rt = insert_pos(keys, t, i);
        assert(s.contains(s[0]));
        lemma_pos_before_total(keys, i as int, s[0] as int);
        assert forall|a: int, b: int| 0 <= a < b < r.len() implies pos_before(keys, #[trigger] r[a] as int, #[trigger] r[b] as int) by {
            if a == 0 {
                assert(r[b] == rt[b - 1]);
                assert(rt.contains(rt[b - 1]));
                if rt[b - 1] != i {
                    let k = choose|k: int| 0 <= k < t.len() && t[k] == rt[b - 1];
                    assert(t[k] == s[k + 1]);
                }
            } else {
                assert(r[a] == rt[a - 1]);
                assert(r[b] == rt[b - 1]);
            }
        }
        assert forall|x: usize| #[trigger] r.contains(x) <==> s.contains(x) || x == i by {
            if r.contains(x) {
                let k = choose|k: int| 0 <= k < r.len() && r[k] == x;
                if k > 0 {
                    assert(rt[k - 1] == x);
                    assert(rt.contains(x));
                    if x != i {
                        let m = choose|m: int| 0 <= m < t.len() && t[m] == x;
                        assert(s[m + 1] == x);
                    }
                }
            }
            if s.contains(x) {
                let k = choose|k: int| 0 <= k < s.len() && s[k] == x;
                if k == 0 {
                    assert(r[0] == x);
                } else {
                    assert(t[k - 1] == x);
                    assert(rt.contains(x));
                    let m = choose|m: int| 0 <= m < rt.len() && rt[m] == x;
                    assert(r[m + 1] == x);
                }
            }
            if x == i {
                assert(rt.contains(i));
                let m = choose|m: int| 0 <= m < rt.len() && rt[m] == i;
                assert(r[m + 1] == i);
            }
        }
    }
}

proof fn lemma_insertion_order(keys: Seq<(Seq<u8>, Seq<u8>)>, n: nat)
    requires
        n <= usize::MAX + 1,
    ensures
        in_key_order(keys, insertion_order(keys, n)),
        insertion_order(keys, n).len() == n,
        forall|x: usize| #[trigger] insertion_order(keys, n).contains(x) <==> x < n,
    decreases n,
{
    if n > 0 {
        let m = (n - 1) as nat;
        lemma_insertion_order(keys, m);
        let s = insertion_order(keys, m);
        assert(!s.contains((n - 1) as usize));
        lemma_insert_pos(keys, s, (n - 1) as usize);
    } else {
        let s = insertion_order(keys, n);
        assert forall|x: usize| #[trigger] s.contains(x) <==> x < n by {
            if s.contains(x) {
                let k = choose|k: int| 0 <= k < s.len() && s[k] == x;
            }
        }
    }
}

/// There is a key order for any list of lines (so `key_order` is one).
pub proof fn lemma_key_order_exists(keys: Seq<(Seq<u8>, Seq<u8>)>)
    requires
        keys.len() <= usize::MAX + 1,
    ensures
        is_key_order(keys, key_order(keys)),
{
    let n = keys.len();
    lemma_insertion_order(keys, n);
    let p = insertion_order(keys, n);
    assert forall|i: int| 0 <= i < p.len() implies #[trigger] p[i] < keys.len() by {
        assert(p.contains(p[i]));
    }
    assert(is_key_order(keys, p));
}

/// The contents of a list of keys.
pub open spec fn keys_view(k: Seq<(Vec<u8>, Vec<u8>)>) -> Seq<(Seq<u8>, Seq<u8>)> {
    k.map_values(|e: (Vec<u8>, Vec<u8>)| (e.0@, e.1@))
}

/// The sort key of `line`.
pub fn key(line: &[u8], cfg: &Config) -> (k: (Vec<u8>, Vec<u8>))
    requires
        cfg.x >= 1,
        cfg.y >= 1,
    ensures
        (k.0@, k.1@) == line_key(*cfg, line@),
{
    let mut buf: Vec<(usize, usize)> = Vec::new();
    split_fields(line, cfg.delim, &mut buf);
    let kx = if cfg.x <= buf.len() {
        let (s, e) = buf[cfg.x - 1];
        vstd::slice::slice_to_vec(&line[s..e])
    } else {
        Vec::new()
    };
    let ky = if cfg.y <= buf.len() {
        let (s, e) = buf[cfg.y - 1];
        vstd::slice::slice_to_vec(&line[s..e])
    } else {
        Vec::new()
    };
    proof {
        let fs = fields_of(line@, cfg.delim);
        if cfg.x as int <= buf@.len() {
            assert(buf@[cfg.x - 1] == buf@[cfg.x - 1]);
        } else {
            assert(kx@ =~= Seq::<u8>::empty());
        }
        if cfg.y as int <= buf@.len() {
            assert(buf@[cfg.y - 1] == buf@[cfg.y - 1]);
        } else {
            assert(ky@ =~= Seq::<u8>::empty());
        }
    }
    (kx, ky)
}

/// Whether position `i` comes before position `j`.
fn before(keys: &Vec<(Vec<u8>, Vec<u8>)>, i: usize, j: usize) -> (r: bool)
    requires
        i < keys@.len(),
        j < keys@.len(),
    ensures
        r == pos_before(keys_view(keys@), i as int, j as int),
{
    let ghost kv = keys_view(keys@);
    proof {
        lemma_lt_asymmetric(kv[i as int].0, kv[j as int].0);
        lemma_lt_asymmetric(kv[i as int].1, kv[j as int].1);
        lemma_lt_irreflexive(kv[i as int].0);
        lemma_lt_irreflexive(kv[i as int].1);
    }
    match compare_bytes(keys[i].0.as_slice(), keys[j].0.as_slice()) {
        ByteOrder::Before => true,
        ByteOrder::After => false,
        ByteOrder::Same => match compare_bytes(keys[i].1.as_slice(), keys[j].1.as_slice()) {
            ByteOrder::Before => true,
            ByteOrder::After => false,
            ByteOrder::Same => {
                proof {
                    assert(kv[i as int] == kv[j as int]);
                }
                i < j
            },
        },
    }
}

/// No position is listed twice.
pub open spec fn distinct(v: Seq<usize>) -> bool {
    forall|a: int, b: int| 0 <= a < b < v.len() ==> #[trigger] v[a] != #[trigger] v[b]
}

/// Every position listed is below `n`.
pub open spec fn bounded(v: Seq<usize>, n: nat) -> bool {
    forall|a: int| 0 <= a < v.len() ==> #[trigger] v[a] < n
}

/// A list with one more element contains what it contained and the new one.
proof fn lemma_push_contains(s: Seq<usize>, x: usize, y: usize)
    ensures
        s.push(x).contains(y) <==> s.contains(y) || y == x,
{
    if s.contains(y) {
        let k = choose|k: int| 0 <= k < s.len() && s[k] == y;
        assert(s.push(x)[k] == y);
    }
    if y == x {
        assert(s.push(x)[s.len() as int] == x);
    }
    if s.push(x).contains(y) {
        let k = choose|k: int| 0 <= k < s.len() + 1 && s.push(x)[k] == y;
        if k < s.len() {
            assert(s[k] == y);
        }
    }
}

/// Merge two key-ordered lists with no position in common.
fn merge(keys: &Vec<(Vec<u8>, Vec<u8>)>, a: &Vec<usize>, b: &Vec<usize>) -> (r: Vec<usize>)
    requires
        bounded(a@, keys@.len()),
        bounded(b@, keys@.len()),
        in_key_order(keys_view(keys@), a@),
        in_key_order(keys_view(keys@), b@),
        forall|i: int, j: int| 0 <= i < a@.len() && 0 <= j < b@.len() ==> #[trigger] a@[i] != #[trigger] b@[j],
    ensures
        r@.len() == a@.len() + b@.len(),
        bounded(r@, keys@.len()),
        in_key_order(keys_view(keys@), r@),
        forall|x: usize| #[trigger] r@.contains(x) <==> a@.contains(x) || b@.contains(x),
{
    let ghost kv = keys_view(keys@);
    let mut r: Vec<usize> = Vec::new();
    let mut i: usize = 0;
    let mut j: usize = 0;
    while i < a.len() || j < b.len()
        invariant
            kv == keys_view(keys@),
            bounded(a@, keys@.len()),
            bounded(b@, keys@.len()),
            in_key_order(kv, a@),
            in_key_order(kv, b@),
            forall|i: int, j: int| 0 <= i < a@.len() && 0 <= j < b@.len() ==> #[trigger] a@[i] != #[trigger] b@[j],
            i <= a@.len(),
            j <= b@.len(),
            r@.len() == i + j,
            bounded(r@, keys@.len()),
            in_key_order(kv, r@),
            forall|k: int, l: int|
                0 <= k < r@.len() && i <= l < a@.len() ==> pos_before(kv, #[trigger] r@[k] as int, #[trigger] a@[l] as int),
            forall|k: int, l: int|
                0 <= k < r@.len() && j <= l < b@.len() ==> pos_before(kv, #[trigger] r@[k] as int, #[trigger] b@[l] as int),
            forall|x: usize| #[trigger] r@.contains(x) <==> a@.take(i as int).contains(x) || b@.take(j as int).contains(x),
        decreases a@.len() + b@.len() - i - j,
    {
        let ghost r0 = r@;
        let take_a = if i < a.len() && j < b.len() {
            before(keys, a[i], b[j])
        } else {
            i < a.len()
        };
        if take_a {
            let x = a[i];
            proof {
                assert forall|l: int| j <= l < b@.len() implies pos_before(kv, x as int, #[trigger] b@[l] as int) by {
                    if l > j {
                        lemma_pos_before_strict(kv, x as int, b@[j as int] as int, b@[l] as int);
                    }
                }
            }
            r.push(x);
            i = i + 1;
            proof {
                assert forall|k: int, l: int|
                    0 <= k < r@.len() && i <= l < a@.len() implies pos_before(kv, #[trigger] r@[k] as int, #[trigger] a@[l] as int) by {
                    if k == r@.len() - 1 {
                        assert(pos_before(kv, a@[i - 1] as int, a@[l] as int));
                    } else {
                        assert(r@[k] == r0[k]);
                    }
                }
                assert forall|k: int, l: int|
                    0 <= k < r@.len() && j <= l < b@.len() implies pos_before(kv, #[trigger] r@[k] as int, #[trigger] b@[l] as int) by {
                    if k < r@.len() - 1 {
                        assert(r@[k] == r0[k]);
                    }
                }
                assert forall|x2: usize| #[trigger] r@.contains(x2) <==> a@.take(i as int).contains(x2) || b@.take(j as int).contains(x2) by {
                    assert(a@.take(i as int) =~= a@.take(i - 1).push(x));
                    assert(r@ =~= r0.push(x));
                    lemma_push_contains(r0, x, x2);
                    lemma_push_contains(a@.take(i - 1), x, x2);
                }
            }
        } else {
            let x = b[j];
            proof {
                if i < a@.len() {
                    assert(a@[i as int] != b@[j as int]);
                    lemma_pos_before_total(kv, a@[i as int] as int, x as int);
                }
                assert forall|l: int| i <= l < a@.len() implies pos_before(kv, x as int, #[trigger] a@[l] as int) by {
                    if l > i {
                        lemma_pos_before_strict(kv, x as int, a@[i as int] as int, a@[l] as int);
                    }
                }
            }
            r.push(x);
            j = j + 1;
            proof {
                assert forall|k: int, l: int|
                    0 <= k < r@.len() && j <= l < b@.len() implies pos_before(kv, #[trigger] r@[k] as int, #[trigger] b@[l] as int) by {
                    if k == r@.len() - 1 {
                        assert(pos_before(kv, b@[j - 1] as int, b@[l] as int));
                    } else {
                        assert(r@[k] == r0[k]);
                    }
                }
                assert forall|k: int, l: int|
                    0 <= k < r@.len() && i <= l < a@.len() implies pos_before(kv, #[trigger] r@[k] as int, #[trigger] a@[l] as int) by {
                    if k < r@.len() - 1 {
                        assert(r@[k] == r0[k]);
                    }
                }
                assert forall|x2: usize| #[trigger] r@.contains(x2) <==> a@.take(i as int).contains(x2) || b@.take(j as int).contains(x2) by {
                    assert(b@.take(j as int) =~= b@.take(j - 1).push(x));
                    assert(r@ =~= r0.push(x));
                    lemma_push_contains(r0, x, x2);
                    lemma_push_contains(b@.take(j - 1), x, x2);
                }
            }
        }
    }
    proof {
        assert(a@.take(i as int) =~= a@);
        assert(b@.take(j as int) =~= b@);
    }
    r
}

/// The positions of `v` in key order.
fn sort_positions(keys: &Vec<(Vec<u8>, Vec<u8>)>, v: Vec<usize>) -> (r: Vec<usize>)
    requires
        bounded(v@, keys@.len()),
        distinct(v@),
    ensures
        r@.len() == v@.len(),
        bounded(r@, keys@.len()),
        in_key_order(keys_view(keys@), r@),
        forall|x: usize| #[trigger] r@.contains(x) <==> v@.contains(x),
    decreases v@.len(),
{
    if v.len() <= 1 {
        return v;
    }
    let mid = v.len() / 2;
    let mut left = v;
    let ghost whole = left@;
    let right = left.split_off(mid);
    proof {
        assert(whole =~= left@ + right@);
        assert forall|a: int, b: int| 0 <= a < b < left@.len() implies #[trigger] left@[a] != #[trigger] left@[b] by {
            assert(left@[a] == whole[a] && left@[b] == whole[b]);
        }
        assert forall|a: int, b: int| 0 <= a < b < right@.len() implies #[trigger] right@[a] != #[trigger] right@[b] by {
            assert(right@[a] == whole[a + mid] && right@[b] == whole[b + mid]);
        }
        assert forall|a: int| 0 <= a < right@.len() implies #[trigger] right@[a] < keys@.len() by {
            assert(right@[a] == whole[a + mid]);
        }
    }
    let sl = sort_positions(keys, left);
    let sr = sort_positions(keys, right);
    proof {
        assert forall|i: int, j: int| 0 <= i < sl@.len() && 0 <= j < sr@.len() implies #[trigger] sl@[i] != #[trigger] sr@[j] by {
            assert(sl@.contains(sl@[i]));
            assert(sr@.contains(sr@[j]));
            let a = choose|a: int| 0 <= a < left@.len() && left@[a] == sl@[i];
            let b = choose|b: int| 0 <= b < right@.len() && right@[b] == sr@[j];
            assert(whole[a] == sl@[i]);
            assert(whole[b + mid] == sr@[j]);
        }
    }
    let r = merge(keys, &sl, &sr);
    proof {
        assert forall|x: usize| #[trigger] r@.contains(x) <==> whole.contains(x) by {
            if whole.contains(x) {
                let k = choose|k: int| 0 <= k < whole.len() && whole[k] == x;
                if k < mid {
                    assert(whole.subrange(0, mid as int)[k] == x);
                    assert(sl@.contains(x));
                } else {
                    assert(whole.subrange(mid as int, whole.len() as int)[k - mid] == x);
                    assert(sr@.contains(x));
                }
            }
        }
    }
    r
}

/// The order in which lines with keys `keys` are read when sorting.
pub fn key_order_of(keys: &Vec<(Vec<u8>, Vec<u8>)>) -> (r: Vec<usize>)
    ensures
        r@ == key_order(keys_view(keys@)),
        is_key_order(keys_view(keys@), r@),
{
    let n = keys.len();
    let mut v: Vec<usize> = Vec::new();
    let mut i: usize = 0;
    while i < n
        invariant
            n == keys@.len(),
            i <= n,
            v@.len() == i,
            forall|a: int| 0 <= a < i ==> #[trigger] v@[a] == a,
        decreases n - i,
    {
        v.push(i);
        i = i + 1;
    }
    proof {
        assert forall|x: usize| x < n implies #[trigger] v@.contains(x) by {
            assert(v@[x as int] == x);
        }
    }
    let r = sort_positions(keys, v);
    proof {
        assert(is_key_order(keys_view(keys@), r@));
        let p = key_order(keys_view(keys@));
        assert(is_key_order(keys_view(keys@), p));
        lemma_key_order_unique(keys_view(keys@), r@, p);
    }
    r
}

} // verus!
