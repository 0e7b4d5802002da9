# cypher_parser

A lexer, a recursive-descent parser and a pluggable executor for a practical, read-only subset of the
[Cypher](https://opencypher.org/) graph query language, written and proved in
[Verus](https://github.com/verus-lang/verus).

The library has two layers:

1. **Parsing** (`parse`) turns a query text into a `Query`, or an error with its position.
2. **Execution** (`execute`, `run_query`) evaluates a query against any type that implements
   `GraphProvider`, and gives a `ResultSet` that can be rendered as a table or as JSON.

## The subset

- `MATCH` with node patterns `(v:A|B {prop: value})` and relationship patterns `-[:TYPE]->`,
  `<-[:TYPE]-`, `-[:TYPE]-`, also of variable length: `-[:TYPE*min..max]->`
- `OPTIONAL MATCH`, `UNWIND list AS x`, `WITH`, `WHERE`
- `RETURN` and `WITH` with `DISTINCT`, `*`, `AS`, `ORDER BY`, `SKIP` and `LIMIT`, and the aggregates
  `count`, `collect`, `min`, `max`, `sum` and `avg`
- `=`, `<>`, `<`, `<=`, `>`, `>=`, `CONTAINS`, `STARTS WITH`, `ENDS WITH`, `IN`, `IS [NOT] NULL`,
  `AND`, `OR`, `NOT`
- `toLower`, `toUpper`, `size`, `coalesce`, `labels`, `CASE`, `EXISTS { ... }`, list literals and map
  projections `n { .prop, key: expr }`

Sums and averages of integers wrap around at the limits of a 64-bit integer.

## What is proved

Every executable function has a contract over mathematical models of its arguments.

| Contract of | is stated by |
|---|---|
| `parse` | `grammar::parsed`, over `lexer::tokens_of` |
| `execute` | `executor::query_result` |
| `run_query` | `query_output` |
| pattern matching | `pattern::match_paths` |
| expressions | `eval::eval` |
| projections | `project::projection_rows`, `finalize::finalized` |
| rendering | `format::formatted`, `value::display`, `value::json` |

Beside the contracts stand laws, as public proof functions:

- `reading`, `layout`: every lexing and parsing error has a place in the text; blanks and comments
  between tokens have no part in the query that a text stands for.
- `walks`, `paths`: on coherent graphs (scans agree with labels, and the sources of a relationship
  type are complete), hops and variable-length hops lead to exactly the nodes that the graph connects
  at those distances, and a path makes exactly the rows of the walks along it.
- `repeats`: if scans also list each node once, a path makes each row equally often from either end.
- `pattern`, `scopes`: matching never changes a binding; every bound variable is in scope;
  `OPTIONAL MATCH` is a left join.
- `safety`, `hoist`: predicates applied while patterns are matched, and lists evaluated beforehand,
  leave the rows as they are. Where the clauses can be run without them, the result is the same row for
  row if all rows agree on which end each path is walked from; without that, on graphs as above, the
  clauses up to a projection give the same multiset of rows. The one other outcome is the error of a
  list on the right of an `IN` that was evaluated beforehand though no row needed it.
- `subqueries`: on coherent graphs whose ids tell nodes apart, `EXISTS { path }` is membership in what
  `collect` gives over all matches of the path.
- `answers`: graphs that give the same answers give the same result, order included.
- `order`, `finalize`: values are totally ordered with null last; sorting is a stable permutation;
  `DISTINCT` leaves each row of values once; `LIMIT` bounds the number of rows.
- `aggregate`, `project`, `executor`: `min` and `max` bound their group; aggregates over nothing give
  one row; a result has one value for each column.
- `value`, `format`, `json`: the id of a node never shows in the output; JSON output is a JSON text, and
  its strings stand for the texts that they were made of.

A `GraphProvider` is trusted to answer as its specification functions say, and its node ids must be
compared by `==` as values. Where `expand_in` answers, `Executor::incoming` hands the answer back as it
is and builds no reverse adjacency. Of the standard library, `String::push`, `str::to_lowercase` and
`str::to_uppercase` are trusted; see `text`.

## Layout

- `src/`: the library. `lexer`, `grammar` and `parser` read queries; `ast` and `naming` hold them;
  `provider`, `row`, `value`, `compare` and `value_index` hold graphs, bindings and values; `pattern` and
  `matcher` match patterns; `eval`, `evaluator`, `analysis`, `hoist` and `pushdown` evaluate and filter;
  `aggregate`, `project`, `finalize` and `executor` make results; `format` renders them.
- `tests/`: executable tests.
