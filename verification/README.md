# zirium

A verified library for reading and laying out textual MLIR without linking LLVM.
The lexer and parser keep every byte of the input, including comments,
whitespace, malformed syntax and invalid UTF-8. Verus proves every function
against its contract, except one wrapper that builds a `String` from UTF-8
bytes with std's `String::from_utf8` and is trusted. How much a contract says varies: the lexer, the
formatter, operation formats, registry configurations and their registration,
the graph loader and walk, and text edits are specified exactly. The operation
grammar's contracts state that the tree keeps the token tape and is well
formed; for its smaller readers (affine expressions, operand lists, flags,
balanced payloads and the like) exactly what they read; for each operation the
node it builds and, for quoted and unregistered mnemonics, its kind, error and
diagnostic; and for the registered assembly programs the cases, decided by the
tape before any nested type, attribute or region grammar, in which they mark an
operation as an error or not. The public parse functions carry these facts for
a file's first operation. They do not state every node and diagnostic of a
whole parse: the type, attribute and region grammars have no specification of
what they build.

## Layout

- `src/source.rs`: the bytes of a file and ranges over them.
- `src/lexer.rs`: the token tape, specified by `spec_lex`; its tokens tile the
  input.
- `src/representation.rs`: the pre-order syntax tree and the builder that makes it.
- `src/parser.rs`, `src/parser/grammar.rs`: the generic and registered operation
  grammar, text edits and reparsing; `src/parser/syntax.rs`: typed views of the tree.
- `src/dialect.rs`, `src/dialect/format.rs`, `src/dialect/config.rs`: dialect
  registries, operation format descriptions and registry configurations.
- `src/dialect/expand.rs`: expanding a registry configuration with its presets,
  and combining configurations (`spec_expanded`, `spec_build_many`).
- `src/dialect/loader.rs`: the decisions of loading a graph of registry files,
  one event at a time (`load_next`).
- `src/dialect/compose.rs`: composing the configurations of a loaded graph, with
  the two files named where they disagree (`spec_composed`).
- `src/formatter.rs`: layout of a parsed file, specified by `laid_out`.
- `src/query.rs`, `src/diff.rs`: string literals, query errors and the
  vocabulary of semantic diffs.
- `app/`: JSON loading of registry configurations and presets, the file and
  resource reads of a registry graph driven by the library's loader, and error
  messages.
- `tests/`: tests of the library on concrete inputs.

## Differences in the interface

- Verus does not support function pointers, so a dialect cannot hand the parser
  a callback: there is no `DialectParser` callback interface and no `parse`
  field on `OperationDescriptor`. The registered grammars are the built-in
  programs of `AssemblyProgram`.
- The bundled presets are parsed by the caller and handed to
  `RegistryConfig::expanded`, `build`, `build_many` and
  `DialectRegistry::from_name` as a table of names and configurations. `build`,
  `build_many`, `from_name` and `compose_sourced` return a `BuiltRegistry`: the
  registry, which holds the chosen catalog operations and the named shapes, and
  the expanded registrations, which also keep formats, alternative grammars and
  call-target attributes (the registry has no place for those).
- Reading files and resources, JSON parsing and error messages are in `app/`;
  which file comes next is decided by the library's `GraphWalk`.
- `DialectRegistry::core` is called `core_registry`.
