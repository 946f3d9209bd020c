use rsomics_tsv_crosstab::config::{build_config, Options};
use rsomics_tsv_crosstab::fmtg::write_g_sci;
use rsomics_tsv_crosstab::ops::Acc;
use rsomics_tsv_crosstab::table::{crosstab, emit};
use rsomics_tsv_crosstab::CrosstabError;

fn options(args: &[&str]) -> Options {
    let mut o = Options {
        fields: String::new(),
        op: None,
        value: None,
        sort: false,
        field_separator: "\t".to_string(),
        header_in: false,
        filler: "N/A".to_string(),
        collapse_delimiter: ",".to_string(),
    };
    let mut i = 0;
    while i < args.len() {
        match args[i] {
            "--fields" => {
                o.fields = args[i + 1].to_string();
                i += 1;
            }
            "--op" => {
                o.op = Some(args[i + 1].to_string());
                i += 1;
            }
            "--value" => {
                o.value = Some(args[i + 1].parse().unwrap());
                i += 1;
            }
            "--sort" | "-s" => o.sort = true,
            "--header-in" => o.header_in = true,
            "--filler" => {
                o.filler = args[i + 1].to_string();
                i += 1;
            }
            "--field-separator" => {
                o.field_separator = args[i + 1].to_string();
                i += 1;
            }
            "--collapse-delimiter" => {
                o.collapse_delimiter = args[i + 1].to_string();
                i += 1;
            }
            other => panic!("unknown test option {other}"),
        }
        i += 1;
    }
    o
}

fn g14(x: f64) -> Vec<u8> {
    let mut out = Vec::new();
    if x == 0.0 {
        out.push(b'0');
        return out;
    }
    if x < 0.0 {
        out.push(b'-');
    }
    let e = format!("{:.*e}", 13, x.abs());
    assert!(write_g_sci(e.as_bytes(), &mut out));
    out
}

fn sum_text(vals: &[Vec<u8>]) -> Vec<u8> {
    let s: f64 = vals
        .iter()
        .map(|v| std::str::from_utf8(v).unwrap().trim().parse::<f64>().unwrap())
        .sum();
    g14(s)
}

/// Runs the library the way the command does; numeric cells are summed.
fn run(args: &[&str], input: &[u8]) -> Result<Vec<u8>, CrosstabError> {
    let cfg = build_config(&options(args))?;
    let tab = crosstab(input, &cfg);
    for v in &tab.numeric_values {
        let ok = std::str::from_utf8(&v.raw)
            .ok()
            .and_then(|s| s.trim().parse::<f64>().ok())
            .is_some();
        if !ok {
            return Err(CrosstabError::InvalidNumeric {
                line: v.line,
                value: v.raw.clone(),
            });
        }
    }
    let table = tab.table?;
    let nums: Vec<Vec<u8>> = table
        .cells
        .iter()
        .map(|c| match &c.acc {
            Acc::Nums { vals, .. } => sum_text(vals),
            _ => Vec::new(),
        })
        .collect();
    Ok(emit(&cfg, &table, &nums))
}

fn text(r: Result<Vec<u8>, CrosstabError>) -> String {
    String::from_utf8(r.unwrap()).unwrap()
}

#[test]
fn count_contingency_table() {
    let out = run(&["--fields", "1,2"], b"a\tx\na\ty\nb\tx\nb\tx\nc\tz\n");
    assert!(out.is_ok());
    assert_eq!(
        text(out),
        "\tx\ty\tz\na\t1\t1\tN/A\nb\t2\tN/A\tN/A\nc\tN/A\tN/A\t1\n"
    );
}

#[test]
fn sum_aggregate() {
    let out = run(
        &["--fields", "1,2", "--op", "sum", "--value", "3"],
        b"a\tx\t10\na\ty\t5\nb\tx\t3\nb\tx\t7\n",
    );
    assert!(out.is_ok());
    assert_eq!(text(out), "\tx\ty\na\t10\t5\nb\t10\tN/A\n");
}

#[test]
fn labels_sort_lexicographically_not_numerically() {
    let out = run(&["--fields", "1,2"], b"10\ta\n2\ta\n1\ta\n");
    assert_eq!(text(out), "\ta\n1\t1\n10\t1\n2\t1\n");
}

#[test]
fn default_groups_consecutive_runs_only() {
    // Non-adjacent reoccurrence of (a,x): first run kept, later run discarded.
    let out = run(&["--fields", "1,2"], b"a\tx\nb\tx\na\tx\n");
    assert_eq!(text(out), "\tx\na\t1\nb\t1\n");
}

#[test]
fn sort_aggregates_whole_input() {
    let out = run(&["--fields", "1,2", "--sort"], b"a\tx\nb\tx\na\tx\n");
    assert_eq!(text(out), "\tx\na\t2\nb\t1\n");
}

#[test]
fn custom_filler() {
    let out = run(&["--fields", "1,2", "--filler", "."], b"a\tx\nb\ty\n");
    assert_eq!(text(out), "\tx\ty\na\t1\t.\nb\t.\t1\n");
}

#[test]
fn empty_input_emits_bare_header() {
    let out = run(&["--fields", "1,2"], b"");
    assert!(out.is_ok());
    assert_eq!(out.unwrap(), b"\n");
}

#[test]
fn short_row_errors() {
    let out = run(&["--fields", "1,2"], b"a\tx\nb\n");
    assert!(out.is_err());
    assert!(matches!(
        out,
        Err(CrosstabError::ShortRow { need: 2, line: 2, got: 1 })
    ));
}

#[test]
fn bad_op_errors() {
    let out = run(
        &["--fields", "1,2", "--op", "wat", "--value", "3"],
        b"a\tx\t1\n",
    );
    assert!(out.is_err());
}
