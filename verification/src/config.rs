//! Turning option values into a [`Config`].
use vstd::prelude::*;

use crate::ops::{Op, op_named};
use vstd::utf8::encode_utf8;
use crate::text::{lemma_split_on_last, lemma_split_on_none, split_on};
use vstd::string::StringSliceAdditionalSpecFns;
use crate::table::config_wf;
use crate::{ByteOption, Config, CrosstabError};

verus! {

/// The option values a configuration is built from, as given.
pub struct Options {
    /// The two fields to cross-tabulate: rows,columns (e.g. "1,2").
    pub fields: String,
    /// Aggregate cells with this operation instead of counting.
    pub op: Option<String>,
    /// 1-based field the aggregate reads.
    pub value: Option<usize>,
    /// Sort the input by the key fields first.
    pub sort: bool,
    /// Field separator (one byte).
    pub field_separator: String,
    /// The first input line is column headers.
    pub header_in: bool,
    /// Text of empty cells.
    pub filler: String,
    /// Separator between elements of `unique` and `collapse` cells (one byte).
    pub collapse_delimiter: String,
}

// ---------------------------------------------------------------------
// Characters
// ---------------------------------------------------------------------

/// The characters of `s`.
pub fn chars_of(s: &str) -> (v: Vec<char>)
    ensures
        v@ == s@,
{
    let mut v: Vec<char> = Vec::new();
    for c in it: s.chars()
        invariant
            it.seq() == s@,
            v@ =~= s@.take(it.index() as int),
    {
        proof {
            assert(s@.take(it.index() + 1) =~= v@.push(c));
        }
        v.push(c);
    }
    proof {
        assert(v@ =~= s@);
    }
    v
}

/// The text made of the characters of `v`.
///
/// Calls `String`'s `FromIterator<&char>`, which appends each character in
/// turn; the contract claims no more than that the result holds exactly those
/// characters.
#[verifier::external_body]
fn string_from_chars(v: &Vec<char>) -> (s: String)
    ensures
        s@ == v@,
{
    v.iter().collect()
}

/// Unicode White_Space: the characters `str::trim` removes.
pub open spec fn is_white_space(c: char) -> bool {
    let u = c as u32;
    (9 <= u <= 13) || u == 32 || u == 0x85 || u == 0xa0 || u == 0x1680 || (0x2000 <= u <= 0x200a)
        || u == 0x2028 || u == 0x2029 || u == 0x202f || u == 0x205f || u == 0x3000
}

fn white_space(c: char) -> (r: bool)
    ensures
        r == is_white_space(c),
{
    let u = c as u32;
    (9 <= u && u <= 13) || u == 32 || u == 0x85 || u == 0xa0 || u == 0x1680 || (0x2000 <= u && u
        <= 0x200a) || u == 0x2028 || u == 0x2029 || u == 0x202f || u == 0x205f || u == 0x3000
}

/// `s` without its leading white space.
pub open spec fn trim_start(s: Seq<char>) -> Seq<char>
    decreases s.len(),
{
    if s.len() > 0 && is_white_space(s[0]) {
        trim_start(s.drop_first())
    } else {
        s
    }
}

/// `s` without its trailing white space.
pub open spec fn trim_end(s: Seq<char>) -> Seq<char>
    decreases s.len(),
{
    if s.len() > 0 && is_white_space(s.last()) {
        trim_end(s.drop_last())
    } else {
        s
    }
}

/// `s` without leading and trailing white space.
pub open spec fn trim(s: Seq<char>) -> Seq<char> {
    trim_end(trim_start(s))
}

proof fn lemma_trim_start_at(s: Seq<char>, i: int)
    requires
        0 <= i <= s.len(),
        forall|k: int| 0 <= k < i ==> is_white_space(#[trigger] s[k]),
        i < s.len() ==> !is_white_space(s[i]),
    ensures
        trim_start(s) == s.skip(i),
    decreases i,
{
    if i == 0 {
        assert(s.skip(0) =~= s);
    } else {
        let t = s.drop_first();
        assert forall|k: int| 0 <= k < i - 1 implies is_white_space(#[trigger] t[k]) by {
            assert(t[k] == s[k + 1]);
        }
        if i < s.len() {
            assert(t[i - 1] == s[i]);
        }
        lemma_trim_start_at(t, i - 1);
        assert(t.skip(i - 1) =~= s.skip(i));
    }
}

proof fn lemma_trim_end_at(s: Seq<char>, j: int)
    requires
        0 <= j <= s.len(),
        forall|k: int| j <= k < s.len() ==> is_white_space(#[trigger] s[k]),
        j > 0 ==> !is_white_space(s[j - 1]),
    ensures
        trim_end(s) == s.take(j),
    decreases s.len() - j,
{
    if j == s.len() {
        assert(s.take(j) =~= s);
    } else {
        let t = s.drop_last();
        assert forall|k: int| j <= k < t.len() implies is_white_space(#[trigger] t[k]) by {
            assert(t[k] == s[k]);
        }
        if j > 0 {
            assert(t[j - 1] == s[j - 1]);
        }
        lemma_trim_end_at(t, j);
        assert(t.take(j) =~= s.take(j));
    }
}

/// `v` without leading and trailing white space.
fn trim_chars(v: &Vec<char>) -> (r: Vec<char>)
    ensures
        r@ == trim(v@),
{
    let n = v.len();
    let mut i: usize = 0;
    while i < n && white_space(v[i])
        invariant
            n == v@.len(),
            i <= n,
            forall|k: int| 0 <= k < i ==> is_white_space(#[trigger] v@[k]),
        decreases n - i,
    {
        i = i + 1;
    }
    proof {
        lemma_trim_start_at(v@, i as int);
    }
    let ghost s = v@.skip(i as int);
    let mut j: usize = n;
    while j > i && white_space(v[j - 1])
        invariant
            n == v@.len(),
            i <= j <= n,
            s == v@.skip(i as int),
            forall|k: int| j <= k < n ==> is_white_space(#[trigger] v@[k]),
        decreases j,
    {
        j = j - 1;
    }
    proof {
        assert forall|k: int| j - i <= k < s.len() implies is_white_space(#[trigger] s[k]) by {
            assert(s[k] == v@[k + i]);
        }
        if j > i {
            assert(s[j - i - 1] == v@[j - 1]);
        }
        lemma_trim_end_at(s, j - i);
    }
    let r = vstd::slice::slice_to_vec(&v.as_slice()[i..j]);
    proof {
        assert(r@ =~= s.take(j - i));
    }
    r
}

// ---------------------------------------------------------------------
// Numbers
// ---------------------------------------------------------------------

/// An ASCII decimal digit.
pub open spec fn is_digit(c: char) -> bool {
    '0' <= c <= '9'
}

/// The value of a string of decimal digits.
pub open spec fn digits_value(d: Seq<char>) -> nat
    decreases d.len(),
{
    if d.len() == 0 {
        0
    } else {
        digits_value(d.drop_last()) * 10 + (d.last() as nat - '0' as nat) as nat
    }
}

/// `s` without one leading `+`.
pub open spec fn unsigned_digits(s: Seq<char>) -> Seq<char> {
    if s.len() > 0 && s[0] == '+' {
        s.drop_first()
    } else {
        s
    }
}

/// Every character of `d` is a decimal digit.
pub open spec fn all_digits(d: Seq<char>) -> bool {
    forall|k: int| 0 <= k < d.len() ==> is_digit(#[trigger] d[k])
}

/// What `usize::from_str` gives: an optional `+`, then one or more decimal
/// digits whose value fits in a `usize`.
pub open spec fn parse_usize_spec(s: Seq<char>) -> Option<usize> {
    let d = unsigned_digits(s);
    if d.len() > 0 && all_digits(d) && digits_value(d) <= usize::MAX {
        Some(digits_value(d) as usize)
    } else {
        None
    }
}

/// A longer run of digits is worth no less.
proof fn lemma_digits_value_grows(d: Seq<char>, i: int)
    requires
        0 <= i <= d.len(),
        forall|k: int| 0 <= k < d.len() ==> is_digit(#[trigger] d[k]),
    ensures
        digits_value(d.take(i)) <= digits_value(d),
    decreases d.len() - i,
{
    if i < d.len() {
        let t = d.take(i + 1);
        assert(t.drop_last() =~= d.take(i));
        assert(t.last() == d[i]);
        lemma_digits_value_grows(d, i + 1);
    } else {
        assert(d.take(i) =~= d);
    }
}

/// The number `s` spells, as `usize::from_str` reads it.
fn parse_usize(s: &Vec<char>) -> (r: Option<usize>)
    ensures
        r == parse_usize_spec(s@),
{
    let n = s.len();
    let start: usize = if n > 0 && s[0] == '+' {
        1
    } else {
        0
    };
    let ghost d = s@.skip(start as int);
    proof {
        if start == 1 {
            assert(d =~= s@.drop_first());
        } else {
            assert(d =~= s@);
        }
    }
    if start == n {
        return None;
    }
    let mut value: usize = 0;
    let mut i: usize = start;
    proof {
        assert(d.take(0) =~= Seq::<char>::empty());
    }
    while i < n
        invariant
            n == s@.len(),
            start <= i <= n,
            d == s@.skip(start as int),
            d == unsigned_digits(s@),
            start < n,
            forall|k: int| 0 <= k < i - start ==> is_digit(#[trigger] d[k]),
            value == digits_value(d.take(i - start)),
        decreases n - i,
    {
        let c = s[i];
        if !('0' <= c && c <= '9') {
            proof {
                assert(d[i - start] == c);
                assert(!is_digit(d[i - start]));
                assert(!all_digits(d));
            }
            return None;
        }
        let digit = (c as u32 - '0' as u32) as usize;
        proof {
            let t = d.take(i - start + 1);
            assert(t.drop_last() =~= d.take(i - start));
            assert(t.last() == c);
            assert(d[i - start] == c);
        }
        if value > (usize::MAX - digit) / 10 {
            proof {
                assert(forall|k: int| 0 <= k < i - start + 1 ==> is_digit(#[trigger] d[k]));
                assert(value * 10 + digit > usize::MAX) by (nonlinear_arith)
                    requires
                        value > (usize::MAX - digit) / 10,
                        digit <= 9,
                ;
                let t = d.take(i - start + 1);
                assert(digits_value(t) == digits_value(d.take(i - start)) * 10 + (c as nat - '0' as nat));
                assert(digits_value(t) == value * 10 + digit);
                if all_digits(d) {
                    lemma_digits_value_grows(d, i - start + 1);
                    assert(digits_value(d) > usize::MAX);
                }
            }
            return None;
        }
        proof {
            assert(value * 10 + digit <= usize::MAX) by (nonlinear_arith)
                requires
                    value <= (usize::MAX - digit) / 10,
                    digit <= 9,
            ;
        }
        value = value * 10 + digit;
        i = i + 1;
    }
    proof {
        assert(d.take(n - start) =~= d);
    }
    Some(value)
}

// ---------------------------------------------------------------------
// Option values
// ---------------------------------------------------------------------

/// The single byte `s` consists of, or an error naming the option `what`.
pub fn single_byte(s: &str, what: ByteOption) -> (r: Result<u8, CrosstabError>)
    ensures
        s.spec_bytes().len() == 1 ==> r == Ok::<u8, CrosstabError>(s.spec_bytes()[0]),
        s.spec_bytes().len() != 1 ==> r == Err::<u8, CrosstabError>(CrosstabError::NotSingleByte(what)),
{
    let b = s.as_bytes();
    if b.len() != 1 {
        return Err(CrosstabError::NotSingleByte(what));
    }
    Ok(b[0])
}

/// The field number a piece of the field list spells, as a result.
pub open spec fn field_number_ok(s: Seq<char>, r: Result<usize, CrosstabError>) -> bool {
    match parse_usize_spec(trim(s)) {
        None => r matches Err(CrosstabError::InvalidFieldNumber(t)) && t@ == s,
        Some(n) => if n == 0 {
            r matches Err(CrosstabError::ZeroFieldNumber)
        } else {
            r == Ok::<usize, CrosstabError>(n)
        },
    }
}

fn field_number(v: &Vec<char>) -> (r: Result<usize, CrosstabError>)
    ensures
        field_number_ok(v@, r),
{
    let t = trim_chars(v);
    match parse_usize(&t) {
        None => Err(CrosstabError::InvalidFieldNumber(string_from_chars(v))),
        Some(n) => if n == 0 {
            Err(CrosstabError::ZeroFieldNumber)
        } else {
            Ok(n)
        },
    }
}

/// The 1-based field number `s` spells (white space around it is ignored).
pub fn field_index(s: &str) -> (r: Result<usize, CrosstabError>)
    ensures
        field_number_ok(s@, r),
{
    let v = chars_of(s);
    field_number(&v)
}

/// The last position before `end` where `v` holds `d`.
fn last_index_of(v: &Vec<char>, end: usize, d: char) -> (r: Option<usize>)
    requires
        end <= v@.len(),
    ensures
        match r {
            Some(p) => p < end && v@[p as int] == d && forall|k: int| p < k < end ==> v@[k] != d,
            None => forall|k: int| 0 <= k < end ==> v@[k] != d,
        },
{
    let mut j: usize = end;
    while j > 0
        invariant
            j <= end <= v@.len(),
            forall|k: int| j <= k < end ==> v@[k] != d,
        decreases j,
    {
        if v[j - 1] == d {
            return Some(j - 1);
        }
        j = j - 1;
    }
    None
}

/// The result of reading the field list `s`: exactly two comma-separated
/// pieces, each a field number; the first error in that order otherwise.
pub open spec fn pair_ok(s: Seq<char>, r: Result<(usize, usize), CrosstabError>) -> bool {
    let parts = split_on(s, ',');
    if parts.len() != 2 {
        r matches Err(CrosstabError::FieldCount)
    } else {
        match r {
            Ok((x, y)) => field_number_ok(parts[0], Ok(x)) && field_number_ok(parts[1], Ok(y)),
            Err(e) => field_number_ok(parts[0], Err(e)) || (exists|x: usize|
                field_number_ok(parts[0], Ok(x)) && field_number_ok(parts[1], Err(e))),
        }
    }
}

/// The two field numbers of the field list `spec`: its two comma-separated
/// pieces, in order.
pub fn parse_pair(spec: &str) -> (r: Result<(usize, usize), CrosstabError>)
    ensures
        pair_ok(spec@, r),
{
    let v = chars_of(spec);
    let n = v.len();
    match last_index_of(&v, n, ',') {
        None => {
            proof {
                lemma_split_on_none(v@, ',');
            }
            Err(CrosstabError::FieldCount)
        },
        Some(p) => {
            proof {
                lemma_split_on_last(v@, ',', p as int);
            }
            match last_index_of(&v, p, ',') {
                Some(q) => {
                    proof {
                        let pre = v@.take(p as int);
                        assert(pre[q as int] == ',');
                        lemma_split_on_last(pre, ',', q as int);
                        crate::text::lemma_split_on_nonempty(pre.take(q as int), ',');
                    }
                    Err(CrosstabError::FieldCount)
                },
                None => {
                    let first = vstd::slice::slice_to_vec(&v.as_slice()[0..p]);
                    let second = vstd::slice::slice_to_vec(&v.as_slice()[p + 1..n]);
                    proof {
                        assert(first@ =~= v@.take(p as int));
                        assert(second@ =~= v@.skip(p + 1));
                        assert forall|k: int| 0 <= k < first@.len() implies first@[k] != ',' by {
                            assert(first@[k] == v@[k]);
                        }
                        lemma_split_on_none(first@, ',');
                    }
                    match field_number(&first) {
                        Err(e) => Err(e),
                        Ok(x) => match field_number(&second) {
                            Err(e) => Err(e),
                            Ok(y) => Ok((x, y)),
                        },
                    }
                },
            }
        },
    }
}

/// The aggregate an operation name and a value field give; the value field
/// is 1-based, like the key fields.
pub open spec fn agg_ok(
    op: Option<String>,
    value: Option<usize>,
    r: Result<Option<(Op, usize)>, CrosstabError>,
) -> bool {
    match (op, value) {
        (None, None) => r == Ok::<Option<(Op, usize)>, CrosstabError>(None),
        (Some(name), Some(v)) => match op_named(name@) {
            Some(o) => if v == 0 {
                r matches Err(CrosstabError::ZeroFieldNumber)
            } else {
                r == Ok::<Option<(Op, usize)>, CrosstabError>(Some((o, v)))
            },
            None => r matches Err(CrosstabError::UnknownOperation(t)) && t@ == name@,
        },
        (Some(_), None) => r matches Err(CrosstabError::OpWithoutValue),
        (None, Some(_)) => r matches Err(CrosstabError::ValueWithoutOp),
    }
}

/// The configuration the options give, or the first error among: the field
/// separator, the collapse delimiter, the field list, the aggregate.
pub open spec fn build_ok(o: Options, r: Result<Config, CrosstabError>) -> bool {
    let fsb = encode_utf8(o.field_separator@);
    let cdb = encode_utf8(o.collapse_delimiter@);
    if fsb.len() != 1 {
        r matches Err(CrosstabError::NotSingleByte(ByteOption::FieldSeparator))
    } else if cdb.len() != 1 {
        r matches Err(CrosstabError::NotSingleByte(ByteOption::CollapseDelimiter))
    } else {
        match r {
            Err(e) => pair_ok(o.fields@, Err(e)) || (exists|x: usize, y: usize|
                pair_ok(o.fields@, Ok((x, y))) && agg_ok(o.op, o.value, Err(e))),
            Ok(c) => {
                &&& pair_ok(o.fields@, Ok((c.x, c.y)))
                &&& agg_ok(o.op, o.value, Ok(c.agg))
                &&& c.delim == fsb[0]
                &&& c.collapse_delim == cdb[0]
                &&& c.sort == o.sort
                &&& c.header_in == o.header_in
                &&& c.filler@ == encode_utf8(o.filler@)
            },
        }
    }
}

/// The aggregate `op` and `value` ask for.
fn aggregate(op: &Option<String>, value: Option<usize>) -> (r: Result<
    Option<(Op, usize)>,
    CrosstabError,
>)
    ensures
        agg_ok(*op, value, r),
{
    match (op, value) {
        (None, None) => Ok(None),
        (Some(name), Some(v)) => match Op::parse(name.as_str()) {
            Some(o) => if v == 0 {
                Err(CrosstabError::ZeroFieldNumber)
            } else {
                Ok(Some((o, v)))
            },
            None => Err(CrosstabError::UnknownOperation(name.clone())),
        },
        (Some(_), None) => Err(CrosstabError::OpWithoutValue),
        (None, Some(_)) => Err(CrosstabError::ValueWithoutOp),
    }
}

/// The configuration `o` describes.
pub fn build_config(o: &Options) -> (r: Result<Config, CrosstabError>)
    ensures
        build_ok(*o, r),
        r matches Ok(c) ==> config_wf(c),
{
    let delim = match single_byte(o.field_separator.as_str(), ByteOption::FieldSeparator) {
        Ok(b) => b,
        Err(e) => return Err(e),
    };
    let cdelim = match single_byte(o.collapse_delimiter.as_str(), ByteOption::CollapseDelimiter) {
        Ok(b) => b,
        Err(e) => return Err(e),
    };
    let (x, y) = match parse_pair(o.fields.as_str()) {
        Ok(p) => p,
        Err(e) => return Err(e),
    };
    let agg = match aggregate(&o.op, o.value) {
        Ok(a) => a,
        Err(e) => return Err(e),
    };
    let filler = vstd::slice::slice_to_vec(o.filler.as_str().as_bytes());
    Ok(
        Config {
            delim,
            x,
            y,
            agg,
            sort: o.sort,
            header_in: o.header_in,
            filler,
            collapse_delim: cdelim,
        },
    )
}

} // verus!
