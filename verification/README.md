# ShapeSQL

ShapeSQL is a structured query language for flat, non-recursive data
reshaping. This crate is its front end and Shape IR toolkit, written
in Verus: every function in `src/` carries a contract that Verus proves.

## Pipeline

1. `lexer` — source bytes to tokens, against an exact token-level
   model (`lex_spec`).
2. `parser`, `frontend` — tokens to the syntax tree of a program.
3. `bind` — names resolved against a `Catalog` into the bound HIR.
4. `typecheck` — scalar types, nullability and placement rules.
5. `lower` — the typed program to a Shape IR graph, which is validated.
6. `shape_ir` — the Shape IR graph and its validator.
7. `interchange`, `document` — the strict interchange mapping between graphs
   and JSON values; `document` states the exact document of every part of a
   graph and proves that a document determines its graph.
8. `evaluation` — a fully materialized evaluator over a `Snapshot` of input
   relations.

## Main laws proved

- Reading back the document value that the writer produced gives the same
  graph, for every valid graph with interchange identifiers whose document
  the writer produces (`interchange::lemma_round_trip`). The law speaks of
  the document value with its members in the writer's order; it says
  nothing of a value whose members were reordered, as JSON text read into
  a sorted map gives them, or that carries metadata members.
- A decoded graph is what its document says, read member by member by name
  in any order and with metadata set aside: its root and, for every node,
  its identity, kind, collection, schema width and the nodes it reads
  (`interchange::graph_read`); deeper parts of nodes are not stated this way.
- An unreachable-node error from validation names a node that no path from
  the root reaches (`shape_ir::unreachable_reported`), and a cycle error
  comes only from a graph whose dependencies have a cycle
  (`shape_ir::cycle_reported`).
- A graph that validates and has interchange identifiers is readable
  (`document::lemma_valid_graph_readable`).
- A graph that validates has every node checked, every node reachable from
  the root, and no cycle among its node references (`shape_ir::validate`).
- A graph that `lower` returns validates, has positional node identities,
  refers only to earlier nodes, and gives the root the query's result
  schema (`lower::lower`).
- In the body of a parsed program, every set operation down the operands of
  the top one has its keyword right after its left operand, with INTERSECT
  binding tighter than UNION and EXCEPT and all three associating to the
  left (`parser::set_operations_written`).
- A syntax error reports a token of the source with that token's span, or
  the end of the source (`parser::error_located`).
- Every expression is structurally equal to itself, query-bearing predicates
  included (`hir::lemma_structurally_equivalent_reflexive`).
- The helpers of the evaluator for set operations, `DISTINCT`, slicing,
  joins, aggregates, orderings and scalar operators compute exactly what
  their contracts say, and a scalar expression that reaches no subquery
  evaluates to the outcome that `evaluation::expression_outcome` states;
  a filter keeps only rows on which such a predicate is TRUE
  (`evaluation::predicate_holds`), and an order node returns rows of its
  input permuted so that their keys never descend
  (`evaluation::ordered_from_input`). `evaluate` itself states the width of
  the rows it returns, not which rows they are.

## Layout

- `src/` — the verified library.
- `tests/` — ordinary Rust tests of the library.
- `app/` — the edge: JSON text to and from `interchange::JsonValue`, with
  duplicate object members refused, through `serde_json`.
