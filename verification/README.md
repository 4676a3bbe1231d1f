# step-io-blueprint

Reads the EXPRESS schemas of STEP (AP203, AP214, AP242), unites them, and
compiles what the code of step-io is built from: the faithful union of the
schemas, the profiles of the output targets, and the blueprint of every entity.

The library under `src/` is verified with Verus: what every function returns is
stated in its contract, and the laws that hold across functions are proved as
public proof functions named `law_…`.

## Layout

- `express`: the schema parser. `express::reader` finds the blocks of a schema
  text, `express::type_parser` reads attribute types, and
  `express::supertype_parser` reads `SUPERTYPE OF` expressions.
- `inheritance`, `graph`, `chains`: walks over the inheritance of one schema,
  and the closures and chains that the stages share.
- `infer::refgraph`: the union of the schemas.
- `infer::variant`, `arena`, `prune`, `shape`, `reshape`, `pool`, `naming`: the
  stages, in this order. `infer::hierarchy`, `lineage` and `fields` hold what they
  need of the inheritance graph and of attribute slots; `infer::notices` holds what
  the prune stage tells its user.
- `infer::universal_export`, `profile_export`, `l1_export`: the exporters, over
  `infer::export_common`.
- `catalog`, `step_io_scan`: the catalog of entities by group.
- `names`, `text`: tables keyed by name, and text functions.
- `patterns`: the calls into the `regex` crate.

`app/` is the program around it: it reads the schemas and the hand-written files,
calls the stages, and writes the TOML, JSON and Markdown files.

## Use

```
cargo run --release -- universal_export
cargo run --release -- profile_export
cargo run --release -- variant          # then arena, prune, shape, reshape, pool, naming
```

`--allow-pending` lets a stage start although the one before it left entries open.
