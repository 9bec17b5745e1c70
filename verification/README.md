# xforme

Fills designer-authored Excel templates from a record stream and produces
`.xlsx` reports, with the template's formatting, formulas, conditional
formatting, charts and everything else it holds left intact.

A template is a real workbook. Column A of each row carries a control label
(`header`, `footer`, a detail label such as `row1`, or nothing for a static
row), optionally with the field names the label's records carry:
`header(date,receipt,customer)`. Cells bound to data carry a `#name` or `#N`
marker in their comment and keep a real sample value. The detail rows form a
band that is resized to one row per detail record; each record is rendered
from the template row of its own label, with relative formula rows shifted to
where the row lands.

## Layout

* `src/` — the library, verified with Verus:
  * `data.rs`: the tab-delimited record stream (`parse`), named fields
    (`FieldMap`), and JSON/YAML documents (`parse_json`, `parse_yaml`,
    `sheets_from_value`);
  * `xlsx_template.rs`: column-A tags, parameter markers and their resolution,
    warnings, reading a template sheet into its model (`build_model`), and
    filling a workbook in place (`fill_in_place`, `fill_template`);
  * `xlsx_template/plan.rs`: every edit of a fill, decided over plain values
    (`plan_fill`), and the laws of the fill;
  * `xlsx_template/formula.rs`: row-shifting of relative references;
  * `xlsx_template/coords.rs`: column letters, `B7` references, `B1:E1` ranges;
  * `xlsx_template/workbook.rs`: the `umya_spreadsheet` calls, each behind a
    trusted wrapper;
  * `expr.rs`: tokens of template expressions;
  * `cli.rs`: the renderer's command line;
  * `text.rs`: character-level helpers.
* `tests/` — tests of the library, including end-to-end renders of templates
  built in memory.
* `app/` — the command-line renderer: reading and writing `.xlsx` files and
  buffers, PDF conversion through LibreOffice, and the bundled sample
  templates.
