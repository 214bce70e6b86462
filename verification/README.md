# angle_grinder

Log lines in, answers out. A query selects lines, cuts fields out of them (from JSON objects,
or by patterns with stars) and, where it asks for it, groups the records and computes counts,
sums, averages and percentiles of the groups.

`src/` is the verified library:

- `pipeline`: a query at work, line by line; what it yields for many lines.
- `stage`, `operator`: the stages of a query and what they have in common.
- `extract`, `json`: fields out of lines.
- `grouper`, `accumulate`, `order`: groups, aggregate functions, and the order of the results.
- `data`, `table`, `lang`, `render`: values, records, rows and queries.
- `float`, `numeral`, `text`: doubles as bits, decimal numerals, strings.

The proof functions whose names start with `law_` state what holds across functions.

How doubles are written and computed with is a parameter of the library, the traits `Notation`
and `Numerics`; `app/` implements them and reads the input. The parser of the query language and
the renderer of the rows are handed in by the caller.
