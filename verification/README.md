# infrahub-erd

Entity-relationship diagrams for infrahub GraphQL schemas, in Graphviz DOT,
Mermaid, PlantUML and D2.

The library under `src/` is written in Verus: every function carries a
`requires`/`ensures` contract over a mathematical model (`Seq`, `Set`,
`Multiset`, and a view of each type) and is proved against it.

## layout

- `src/sdl.rs`: the boundary to `graphql_parser`: a parsed document read into
  plain definitions.
- `src/parse.rs`: entity, attribute, relationship, generic and enum
  extraction; `schema_model` says what a document yields, and every built
  schema is `schema_well_formed`.
- `src/dedup.rs`: merging of relationships in both directions into one edge;
  proved to keep every relationship exactly once, to pair opposite
  relationships, and to sort its output.
- `src/filter.rs`: `--include`/`--exclude` by regex (through the `regex`
  crate); proved to leave no dangling edge and to compose.
- `src/render.rs`: the `Renderer` trait and the document driver; one module
  per format (`dot.rs`, `mermaid.rs`, `plantuml.rs`, `d2.rs`) gives the text of
  each hook.
- `src/json.rs`: the document that json output serializes.
- `src/text.rs`, `src/order.rs`: character escaping, lexicographic order and a
  stable insertion sort, with their lemmas.
- `app/`: the command-line program (argument parsing, file and network I/O,
  json serialization).
