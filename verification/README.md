# rsomics-tsv-crosstab

Cross-tabulate a delimited file: pivot a long table of (row key, column key,
value) lines into a wide contingency table, printed the way
`datamash crosstab` prints it.

```sh
rsomics-tsv-crosstab --fields 1,2 -f data.tsv
rsomics-tsv-crosstab --fields 1,2 --op sum --value 3 -f data.tsv
```

The library is written in Verus, and every function in `src/` is proved
against its contract, but one: `config::string_from_chars`, which collects
characters into a `String` through std's `FromIterator<&char>`, is trusted
(its contract only says the text holds exactly those characters).

## Layout

- `src/text.rs`: splitting lines into fields, byte order of labels, sorted
  label lists.
- `src/ops.rs`: the aggregate operations, their names, and the accumulators
  of a cell; counts and textual cells are rendered here.
- `src/sort.rs`: the stable order of lines by key used by `--sort`.
- `src/table.rs`: the reading of lines into runs and cells, and the printing
  of the finished table.
- `src/config.rs`: turning option values into a `Config`.
- `src/fmtg.rs`: the `%.14g` layout of a number from its scientific digits.
- `src/laws.rs`: properties of the library as a whole, stated and proved.
- `src/reorder.rs`: with `--sort`, the order of the input lines does not
  change a table of counts or distinct values.
- `app/`: the command line, file reading, and the floating-point statistics
  of numeric cells, which stay outside the proofs.
- `tests/`: tests of the library on concrete inputs.
