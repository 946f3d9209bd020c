use rsomics_tsv_crosstab::config::{
    build_config, chars_of, field_index, parse_pair, single_byte, Options,
};
use rsomics_tsv_crosstab::ops::{itoa, join, push_bytes, render_str, Acc, Op};
use rsomics_tsv_crosstab::sort::{key, key_order_of};
use rsomics_tsv_crosstab::table::{crosstab, emit, RunState, Tabulation};
use rsomics_tsv_crosstab::text::{
    bytes_equal, compare_bytes, field, intern, split_fields, ByteOrder,
};
use rsomics_tsv_crosstab::{ByteOption, Config, CrosstabError};

fn cfg(x: usize, y: usize, agg: Option<(Op, usize)>, sort: bool) -> Config {
    Config {
        delim: b'\t',
        x,
        y,
        agg,
        sort,
        header_in: false,
        filler: b"N/A".to_vec(),
        collapse_delim: b',',
    }
}

fn options() -> Options {
    Options {
        fields: "1,2".to_string(),
        op: None,
        value: None,
        sort: false,
        field_separator: "\t".to_string(),
        header_in: false,
        filler: "N/A".to_string(),
        collapse_delimiter: ",".to_string(),
    }
}

/// Prints a tabulation whose cells are not numeric.
fn print(c: &Config, t: Tabulation) -> String {
    let table = t.table.unwrap();
    let nums = vec![Vec::new(); table.cells.len()];
    String::from_utf8(emit(c, &table, &nums)).unwrap()
}

// ---------------------------------------------------------------------
// Fields
// ---------------------------------------------------------------------

#[test]
fn split_fields_spans() {
    let mut spans = Vec::new();
    split_fields(b"a\tbc\t\td", b'\t', &mut spans);
    assert_eq!(spans, vec![(0, 1), (2, 4), (5, 5), (6, 7)]);
    assert_eq!(field(b"a\tbc\t\td", &spans, 2), b"bc");
    assert_eq!(field(b"a\tbc\t\td", &spans, 3), b"");
}

#[test]
fn spans_lie_between_delimiters() {
    let mut spans = Vec::new();
    split_fields(b"a\t\tb", b'\t', &mut spans);
    assert_eq!(spans, vec![(0, 1), (2, 2), (3, 4)]);
}

#[test]
fn empty_line_has_no_fields() {
    let mut spans = vec![(9, 9)];
    split_fields(b"", b'\t', &mut spans);
    assert!(spans.is_empty());
    // A lone delimiter is two empty fields.
    split_fields(b"\t", b'\t', &mut spans);
    assert_eq!(spans, vec![(0, 0), (1, 1)]);
}

#[test]
fn field_count_is_delimiters_plus_one() {
    let line = b"x,y,,z,";
    let mut spans = Vec::new();
    split_fields(line, b',', &mut spans);
    let delims = line.iter().filter(|&&b| b == b',').count();
    assert_eq!(spans.len(), delims + 1);
    // Joining the fields back with the delimiter gives the line.
    let fields: Vec<Vec<u8>> = spans.iter().map(|&(s, e)| line[s..e].to_vec()).collect();
    let mut out = Vec::new();
    join(&fields, b',', &mut out);
    assert_eq!(out, line);
}

#[test]
fn key_of_short_line_is_empty() {
    let c = cfg(1, 3, None, true);
    assert_eq!(key(b"a\tb\tc", &c), (b"a".to_vec(), b"c".to_vec()));
    assert_eq!(key(b"a\tb", &c), (b"a".to_vec(), Vec::new()));
    assert_eq!(key(b"", &c), (Vec::new(), Vec::new()));
}

// ---------------------------------------------------------------------
// Byte order and label sets
// ---------------------------------------------------------------------

#[test]
fn byte_order() {
    assert_eq!(compare_bytes(b"1", b"10"), ByteOrder::Before);
    assert_eq!(compare_bytes(b"10", b"2"), ByteOrder::Before);
    assert_eq!(compare_bytes(b"b", b"a"), ByteOrder::After);
    assert_eq!(compare_bytes(b"", b""), ByteOrder::Same);
    assert_eq!(compare_bytes(b"", b"a"), ByteOrder::Before);
    assert!(bytes_equal(b"abc", b"abc"));
    assert!(!bytes_equal(b"abc", b"abd"));
}

#[test]
fn intern_keeps_sorted_set() {
    let mut t: Vec<Vec<u8>> = Vec::new();
    for k in [&b"b"[..], b"10", b"a", b"2", b"10", b"", b"1"] {
        intern(&mut t, k);
    }
    let want: Vec<Vec<u8>> = vec![
        b"".to_vec(),
        b"1".to_vec(),
        b"10".to_vec(),
        b"2".to_vec(),
        b"a".to_vec(),
        b"b".to_vec(),
    ];
    assert_eq!(t, want);
}

#[test]
fn key_order_is_stable() {
    let keys = vec![
        (b"b".to_vec(), b"x".to_vec()),
        (b"a".to_vec(), b"y".to_vec()),
        (b"b".to_vec(), b"x".to_vec()),
        (b"a".to_vec(), b"x".to_vec()),
        (b"a".to_vec(), b"y".to_vec()),
    ];
    assert_eq!(key_order_of(&keys), vec![3, 1, 4, 0, 2]);
    assert_eq!(key_order_of(&Vec::new()), Vec::<usize>::new());
}

// ---------------------------------------------------------------------
// Operations and accumulators
// ---------------------------------------------------------------------

#[test]
fn op_names() {
    let names = [
        ("count", Op::Count),
        ("sum", Op::Sum),
        ("min", Op::Min),
        ("max", Op::Max),
        ("absmin", Op::Absmin),
        ("absmax", Op::Absmax),
        ("range", Op::Range),
        ("mean", Op::Mean),
        ("median", Op::Median),
        ("q1", Op::Q1),
        ("q3", Op::Q3),
        ("iqr", Op::Iqr),
        ("pstdev", Op::Pstdev),
        ("sstdev", Op::Sstdev),
        ("pvar", Op::Pvar),
        ("svar", Op::Svar),
        ("first", Op::First),
        ("last", Op::Last),
        ("unique", Op::Unique),
        ("collapse", Op::Collapse),
        ("countunique", Op::Countunique),
    ];
    for (name, op) in names {
        assert_eq!(Op::parse(name), Some(op));
    }
    assert_eq!(Op::parse("Sum"), None);
    assert_eq!(Op::parse("wat"), None);
    assert_eq!(Op::parse(""), None);
    assert_eq!(Op::parse("count "), None);
}

#[test]
fn numeric_ops() {
    assert!(Op::Sum.numeric());
    assert!(Op::Median.numeric());
    assert!(!Op::Count.numeric());
    assert!(!Op::First.numeric());
    assert!(!Op::Unique.numeric());
    assert!(!Op::Countunique.numeric());
}

#[test]
fn itoa_digits() {
    assert_eq!(itoa(0), b"0");
    assert_eq!(itoa(7), b"7");
    assert_eq!(itoa(10), b"10");
    assert_eq!(itoa(1234567890), b"1234567890");
    assert_eq!(itoa(u64::MAX), u64::MAX.to_string().as_bytes());
}

#[test]
fn join_and_push_bytes() {
    let items = vec![b"a".to_vec(), b"".to_vec(), b"bc".to_vec()];
    let mut out = b">".to_vec();
    join(&items, b'|', &mut out);
    assert_eq!(out, b">a||bc");
    let mut none = Vec::new();
    join(&Vec::new(), b'|', &mut none);
    assert!(none.is_empty());
    push_bytes(&mut out, b"!");
    assert_eq!(out, b">a||bc!");
}

#[test]
fn accumulators() {
    let mut c = Acc::new(None);
    c.bump();
    c.push(b"ignored");
    let mut out = Vec::new();
    c.render(b',', &mut out);
    assert_eq!(out, b"2");

    let mut counted = Acc::new(Some(Op::Count));
    counted.push(b"v");
    assert!(matches!(counted, Acc::Count(1)));

    let mut s = Acc::new(Some(Op::Unique));
    s.bump();
    assert!(matches!(&s, Acc::Strs { vals, .. } if vals.is_empty()));
    for v in [&b"q"[..], b"p", b"p"] {
        s.push(v);
    }
    let mut out = Vec::new();
    s.render(b';', &mut out);
    assert_eq!(out, b"p;q");

    let mut n = Acc::new(Some(Op::Mean));
    n.push(b"1.5");
    assert!(matches!(&n, Acc::Nums { op: Op::Mean, vals } if vals == &vec![b"1.5".to_vec()]));
}

#[test]
fn textual_cells() {
    let vals = vec![b"q".to_vec(), b"p".to_vec(), b"p".to_vec()];
    let text = |op: Op| {
        let mut out = Vec::new();
        render_str(op, &vals, b',', &mut out);
        String::from_utf8(out).unwrap()
    };
    assert_eq!(text(Op::First), "q");
    assert_eq!(text(Op::Last), "p");
    assert_eq!(text(Op::Collapse), "q,p,p");
    assert_eq!(text(Op::Unique), "p,q");
    assert_eq!(text(Op::Countunique), "2");
}

// ---------------------------------------------------------------------
// Reading lines
// ---------------------------------------------------------------------

#[test]
fn feed_refuses_short_line() {
    let c = cfg(1, 3, None, false);
    let mut st = RunState::new();
    assert!(st.feed(&c, 0, b"a\tb\tc").is_ok());
    let r = st.feed(&c, 1, b"a\tb");
    assert!(matches!(r, Err(CrosstabError::ShortRow { need: 3, line: 2, got: 2 })));
    st.finish();
}

#[test]
fn first_run_of_a_key_fills_its_cell() {
    let c = cfg(1, 2, Some((Op::Collapse, 3)), false);
    let t = crosstab(b"a\tx\t1\na\tx\t2\nb\tx\t3\na\tx\t4\n", &c);
    assert_eq!(print(&c, t), "\tx\na\t1,2\nb\t3\n");
}

#[test]
fn sort_collects_whole_input_in_input_order() {
    let c = cfg(1, 2, Some((Op::Collapse, 3)), true);
    let t = crosstab(b"a\tx\t1\nb\tx\t3\na\tx\t2\na\tx\t4\n", &c);
    assert_eq!(print(&c, t), "\tx\na\t1,2,4\nb\t3\n");
}

#[test]
fn sort_keeps_input_order_within_a_key() {
    let c = cfg(1, 2, Some((Op::Last, 3)), true);
    let t = crosstab(b"b\tx\t1\na\tx\t2\nb\tx\t3\na\ty\t4\nb\tx\t5\n", &c);
    assert_eq!(print(&c, t), "\tx\ty\na\t2\t4\nb\t5\tN/A\n");
}

#[test]
fn cells_found_whatever_order_they_arrive_in() {
    let c = cfg(1, 2, None, false);
    let t = crosstab(b"c\tz\na\tx\nb\ty\na\tz\nc\tx\nc\tx\na\tx\n", &c);
    assert_eq!(
        print(&c, t),
        "\tx\ty\tz\na\t1\tN/A\t1\nb\tN/A\t1\tN/A\nc\t2\tN/A\t1\n"
    );
}

#[test]
fn sort_counts_every_line_of_a_key() {
    let c = cfg(1, 2, None, true);
    let t = crosstab(b"b\ty\na\tx\nb\ty\na\tx\nb\tx\na\tx\n", &c);
    assert_eq!(print(&c, t), "\tx\ty\na\t3\tN/A\nb\t1\t2\n");
}

#[test]
fn header_line_is_dropped() {
    let mut c = cfg(1, 2, None, false);
    c.header_in = true;
    let t = crosstab(b"X\tY\na\tx\na\ty\nb\tx\n", &c);
    assert_eq!(print(&c, t), "\tx\ty\na\t1\t1\nb\t1\tN/A\n");
    // A header alone is an empty table.
    let t = crosstab(b"X\tY\n", &c);
    assert_eq!(print(&c, t), "\n");
}

#[test]
fn lone_newline_is_empty_input() {
    let c = cfg(1, 2, None, false);
    assert_eq!(print(&c, crosstab(b"\n", &c)), "\n");
    // Only one trailing newline is dropped: an empty last line is read.
    let r = crosstab(b"a\tx\n\n", &c);
    assert!(matches!(r.table, Err(CrosstabError::ShortRow { need: 2, line: 2, got: 0 })));
}

#[test]
fn empty_fields_sort_first() {
    let c = cfg(1, 2, None, false);
    let t = crosstab(b"a\tx\n\tx\na\t\n", &c);
    assert_eq!(print(&c, t), "\t\tx\n\tN/A\t1\na\t1\t1\n");
}

#[test]
fn other_separator() {
    let mut c = cfg(2, 1, None, false);
    c.delim = b',';
    let t = crosstab(b"a,x\na,y\nb,x\n", &c);
    assert_eq!(print(&c, t), ",a,b\nx,1,1\ny,1,N/A\n");
}

#[test]
fn numeric_values_are_reported_in_reading_order() {
    let c = cfg(1, 2, Some((Op::Sum, 3)), true);
    let t = crosstab(b"b\ty\t1\na\tx\t2\nb\ty\t3\n", &c);
    let got: Vec<(usize, Vec<u8>)> = t
        .numeric_values
        .iter()
        .map(|v| (v.line, v.raw.clone()))
        .collect();
    // Sorted: (a,x) first, then the two (b,y) lines; lines are numbered in
    // reading order.
    assert_eq!(
        got,
        vec![(1, b"2".to_vec()), (2, b"1".to_vec()), (3, b"3".to_vec())]
    );
    let table = t.table.unwrap();
    assert_eq!(table.cells.len(), 2);
    assert!(matches!(&table.cells[1].acc, Acc::Nums { vals, .. } if vals.len() == 2));
}

#[test]
fn refusal_keeps_values_read_before_it() {
    let c = cfg(1, 2, Some((Op::Max, 3)), false);
    let t = crosstab(b"a\tx\t1\na\tx\tfoo\nb\n", &c);
    assert!(matches!(t.table, Err(CrosstabError::ShortRow { need: 3, line: 3, got: 1 })));
    assert_eq!(t.numeric_values.len(), 2);
    assert_eq!(t.numeric_values[1].line, 2);
    assert_eq!(t.numeric_values[1].raw, b"foo");
}

#[test]
fn textual_values_are_not_reported() {
    let c = cfg(1, 2, Some((Op::Unique, 3)), false);
    let t = crosstab(b"a\tx\tq\na\tx\tp\na\tx\tp\n", &c);
    assert!(t.numeric_values.is_empty());
    assert_eq!(print(&c, t), "\tx\na\tp,q\n");
}

#[test]
fn emit_uses_caller_text_for_numeric_cells() {
    let c = cfg(1, 2, Some((Op::Sum, 3)), false);
    let t = crosstab(b"a\tx\t1\nb\ty\t2\n", &c);
    let table = t.table.unwrap();
    let nums = vec![b"one".to_vec(), b"two".to_vec()];
    let out = emit(&c, &table, &nums);
    assert_eq!(out, b"\tx\ty\na\tone\tN/A\nb\tN/A\ttwo\n");
}

// ---------------------------------------------------------------------
// Options
// ---------------------------------------------------------------------

#[test]
fn chars_of_text() {
    assert_eq!(chars_of("a\u{e9}b"), vec!['a', '\u{e9}', 'b']);
}

#[test]
fn single_byte_options() {
    assert_eq!(single_byte(",", ByteOption::FieldSeparator).unwrap(), b',');
    assert!(matches!(
        single_byte("ab", ByteOption::FieldSeparator),
        Err(CrosstabError::NotSingleByte(ByteOption::FieldSeparator))
    ));
    assert!(matches!(
        single_byte("\u{e9}", ByteOption::CollapseDelimiter),
        Err(CrosstabError::NotSingleByte(ByteOption::CollapseDelimiter))
    ));
}

#[test]
fn field_numbers() {
    assert_eq!(field_index("3").unwrap(), 3);
    assert_eq!(field_index(" 12\t").unwrap(), 12);
    assert_eq!(field_index("+4").unwrap(), 4);
    assert_eq!(field_index("\u{a0}5\u{3000}").unwrap(), 5);
    assert!(matches!(field_index("0"), Err(CrosstabError::ZeroFieldNumber)));
    match field_index(" x ") {
        Err(CrosstabError::InvalidFieldNumber(s)) => assert_eq!(s, " x "),
        _ => panic!("expected an invalid field number"),
    }
    assert!(matches!(field_index("-1"), Err(CrosstabError::InvalidFieldNumber(_))));
    assert!(matches!(field_index("+"), Err(CrosstabError::InvalidFieldNumber(_))));
    assert!(matches!(field_index(""), Err(CrosstabError::InvalidFieldNumber(_))));
    assert!(matches!(
        field_index("99999999999999999999999"),
        Err(CrosstabError::InvalidFieldNumber(_))
    ));
    assert_eq!(
        field_index(&usize::MAX.to_string()).unwrap(),
        usize::MAX
    );
}

#[test]
fn field_pairs() {
    assert_eq!(parse_pair("1,2").unwrap(), (1, 2));
    assert_eq!(parse_pair(" 3 , 1").unwrap(), (3, 1));
    assert!(matches!(parse_pair("1"), Err(CrosstabError::FieldCount)));
    assert!(matches!(parse_pair("1,2,3"), Err(CrosstabError::FieldCount)));
    assert!(matches!(parse_pair(""), Err(CrosstabError::FieldCount)));
    assert!(matches!(parse_pair("0,1"), Err(CrosstabError::ZeroFieldNumber)));
    match parse_pair("1,y") {
        Err(CrosstabError::InvalidFieldNumber(s)) => assert_eq!(s, "y"),
        _ => panic!("expected an invalid field number"),
    }
    match parse_pair("x,0") {
        Err(CrosstabError::InvalidFieldNumber(s)) => assert_eq!(s, "x"),
        _ => panic!("the first piece is read first"),
    }
}

#[test]
fn configurations() {
    let c = build_config(&options()).unwrap();
    assert_eq!((c.delim, c.x, c.y, c.collapse_delim), (b'\t', 1, 2, b','));
    assert!(c.agg.is_none());
    assert_eq!(c.filler, b"N/A");

    let mut o = options();
    o.op = Some("median".to_string());
    o.value = Some(4);
    o.sort = true;
    o.header_in = true;
    o.filler = "-".to_string();
    let c = build_config(&o).unwrap();
    assert_eq!(c.agg, Some((Op::Median, 4)));
    assert!(c.sort && c.header_in);
    assert_eq!(c.filler, b"-");
}

#[test]
fn configuration_errors() {
    let mut o = options();
    o.field_separator = "::".to_string();
    o.collapse_delimiter = "".to_string();
    assert!(matches!(
        build_config(&o),
        Err(CrosstabError::NotSingleByte(ByteOption::FieldSeparator))
    ));
    o.field_separator = ":".to_string();
    assert!(matches!(
        build_config(&o),
        Err(CrosstabError::NotSingleByte(ByteOption::CollapseDelimiter))
    ));

    let mut o = options();
    o.fields = "1,2,3".to_string();
    o.op = Some("wat".to_string());
    assert!(matches!(build_config(&o), Err(CrosstabError::FieldCount)));

    let mut o = options();
    o.op = Some("wat".to_string());
    o.value = Some(3);
    match build_config(&o) {
        Err(CrosstabError::UnknownOperation(name)) => assert_eq!(name, "wat"),
        _ => panic!("expected an unknown operation"),
    }
    o.value = None;
    assert!(matches!(build_config(&o), Err(CrosstabError::OpWithoutValue)));
    let mut o = options();
    o.value = Some(3);
    assert!(matches!(build_config(&o), Err(CrosstabError::ValueWithoutOp)));
}

#[test]
fn value_field_zero_is_refused() {
    let mut o = options();
    o.op = Some("sum".to_string());
    o.value = Some(0);
    assert!(matches!(build_config(&o), Err(CrosstabError::ZeroFieldNumber)));
    o.op = Some("wat".to_string());
    assert!(matches!(
        build_config(&o),
        Err(CrosstabError::UnknownOperation(_))
    ));
    o.op = Some("sum".to_string());
    o.value = Some(1);
    assert_eq!(build_config(&o).unwrap().agg, Some((Op::Sum, 1)));
}
