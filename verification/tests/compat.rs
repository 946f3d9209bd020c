use rsomics_tsv_crosstab::config::{build_config, Options};
use rsomics_tsv_crosstab::table::{crosstab, emit};

fn count_options() -> Options {
    Options {
        fields: "1,2".to_string(),
        op: None,
        value: None,
        sort: false,
        field_separator: "\t".to_string(),
        header_in: false,
        filler: "N/A".to_string(),
        collapse_delimiter: ",".to_string(),
    }
}

#[test]
fn missing_field_errors() {
    let ragged = b"a\tx\nb\n";
    let cfg = build_config(&count_options()).unwrap();
    let tab = crosstab(ragged, &cfg);
    assert!(tab.table.is_err(), "ours should reject short rows");
    // Nothing is printed for a refused input.
    let printed: Vec<u8> = match &tab.table {
        Ok(t) => emit(&cfg, t, &vec![Vec::new(); t.cells.len()]),
        Err(_) => Vec::new(),
    };
    assert!(printed.is_empty());
}
