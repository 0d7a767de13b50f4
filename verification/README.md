# codespace

Structural scratch space for generated Rust code, verified with Verus.

A `Codespace` owns a tree of `Mod`s; each `Mod` holds named items (opaque token
streams) and named submodules. Items are added under a `"::"`-delimited path:
intermediate segments name modules; the final segment is a sort key that is
never emitted. Adding an item under an existing key appends its tokens. Each
`Mod` also carries a visibility, doc paragraphs and attributes.

`Codespace::into_stream` renders the tree into one stream;
`Codespace::into_files` renders one file for each module.

## Layout

- `src/model.rs`: what a module is and what it renders to, as specifications
- `src/codespace.rs`, `src/module.rs`: the tree of modules and its nodes
- `src/names.rs`: module names
- `src/render.rs`: metadata and `mod` heads
- `src/files.rs`, `src/layout.rs`: file paths, and how files come together
- `src/order.rs`, `src/table.rs`, `src/text.rs`: ordered tables, splitting text
- `src/tokens.rs`: token streams, and the contracts that are taken on trust
- `src/laws.rs`: what holds of modules as a whole
- `app/`: calls that panic on an invalid module name, and files by `PathBuf`
- `tests/`: tests

Module names are checked. The methods that take one ask for a valid name; the
methods `try_..` beside them take any name and return an error for an invalid
one.
