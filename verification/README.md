# river

The query-result engine of River's file-processor mode, verified with Verus.

`src/` is the verified library:

- `value`, `ast`: cells, results and expression trees. A floating-point cell
  is held as the bits of its IEEE-754 encoding.
- `expr_spec`, `expr`, `expr_laws`: what evaluating an expression over a row
  means, the evaluator proved against it, and laws of comparison, negation,
  `NOT`, casts and `BETWEEN`. Floating-point arithmetic and float texts are
  not computed; evaluation reports them as `None`.
- `joins_spec`, `joins`, `join_laws`: hash and nested-loop joins, their
  contracts, and laws (a cross join has every pair; for an equi-join of a
  left column and a right column, bare or qualified by table, the two
  strategies give the same rows up to order, where for an outer join the
  hash join pads unmatched rows as the nested-loop join does; every hash
  join row has a cell per column under the same condition; a limited join
  gives a prefix of the unlimited one; a left join keeps every left row).
- `render_table`: the text table and the one-line summary, with the law that
  every line of a table has the same length.
- `export`, `csv_export`, `xml_export`, `json_export`, `xlsx_export`: the
  export formats, through the `csv`, `quick_xml` and `serde_json` crates.
- `clock`: the time `now()` reads, as a `YYYY-MM-DD hh:mm:ss` text.
- `file_processor`: exit codes, the setup steps (missing or unreadable
  script, unsupported export target, parse error, empty script), accepted
  export targets, and the state machine that decides what happens to each
  statement's result and keeps the parameters assigned so far.

`app/` holds what the library leaves out: file I/O, float formatting, the
XLSX workbook, and the statement loop over a query engine.
