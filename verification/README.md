# biome_formatter

A library that lays out code, written in Rust and verified with Verus.

* `printer` prints documents. A document is a sequence of format elements: texts, spaces, line
  breaks and tags that mark groups, indentions, fills and other parts. The printer puts as much of
  a group on a line as fits, and breaks lines where it must.
* `arguments` collects the elements of values that know how to format themselves.
* `batch` plans edits of JavaScript syntax trees, such as removing a parameter together with the
  comma that is then one too many. `syntax` holds the trees.

## Contracts

`printer::outcome` says what printing a document leads to, step by step, as a function from
documents, options and states to outcomes. `Printer::print` returns exactly that. It asks for a
document that the printer supports; `Printer::try_print` takes any document and returns `None` for
the others. `printer::fits` says in the same way what fits on a line, and `batch` which changes an
edit records.

What follows from these definitions stands in `printer::laws` and `batch::laws`:

* `output`: the output only grows, its line breaks are the line ending of the options, and the
  source map follows the output.
* `content`: printing changes only blanks.
* `errors`: what is left of a malformed document where its error is found.
* `lines`: how line breaks, spaces, indentions and line suffixes are printed.
* `fitting`: what was measured to fit stays on the line.
* `fills`: how the items and separators of a fill are printed.
* `nesting`: printing an entry consumes this entry and nothing else.
* `layout`, `measuring` and `documents`: documents whose parts nest are printed without an error, if
  their line suffixes and the separators of their fills need no measuring, and the entries of their
  fills are measured reliably.

## Trusted parts

Three functions are called without a proof of what they do: `UnicodeWidthChar::width` of the
`unicode-width` crate, `String::push` and `std::slice::from_ref`.
