# relax_ng

RELAX NG in verified Rust: reads a schema in the compact (`.rnc`) or the XML (`.rng`)
syntax, composes it, and validates the structure of a document against it. The functions of
the library are verified with Verus against their contracts; the laws that span functions
are public proof functions. What other crates and std do is believed, not verified: the
contracts of the wrappers around regex (`Regex::new`, `Regex::is_match`) and roxmltree
(`Document::parse`), and those given to unicode-ident, `char::from_u32` and `String::push`.

The library reads no files and asks no servers. `SchemaSource` carries schema text and a
base URI, and a `SchemaResolver` that the caller supplies resolves each `include` and
`externalRef`. Documents come in through the `Element` trait, implemented over whatever
tree the caller has. Datatypes come from a `DatatypeRegistry`, which has the built-in and
the XML Schema library from the start and takes others.

```rust
use relax_ng::{DatatypeRegistry, Schema, SchemaSource, SchemaSyntax};

let source = SchemaSource::new(
    "element greeting { attribute lang { text }, text }",
    "memory:/greeting.rnc",
    SchemaSyntax::Compact,
);
let schema = Schema::compile(&source, &resolver)?;
let problems = schema.validate(&DatatypeRegistry::new(), &document)?;
```

## Layout

- `text`, `numbers`, `string_map`: texts, numerals and ordered maps.
- `grammar`: schemas as they are written, and their models.
- `lexer`, `compact`: the compact syntax. `xml_tree`, `xml_syntax`: the XML syntax.
  `syntax`: what the two share.
- `resolver`, `simplify`, `compose`: inclusion, merging and reduction of a schema to the
  forms that are validated.
- `algebra`, `name_class`, `recursion`, `restrictions`: patterns, names, references, and
  the restrictions on where patterns may stand.
- `derivative`, `validator`, `schema`: derivatives of patterns, and validation by them.
- `datatypes`: the registry, the built-in library and the XML Schema library, with decimal
  and binary floating-point numbers, durations and dates as exact integer arithmetic.
- `language`, `recognition`, `expectation`: what children a content model accepts, and that
  the derivatives recognize them. `grounded`, `shapes`, `data_apart`, `matching`: the same for
  attributes and children together. `conformance`, `mixed`, `documents`: that validation comes
  to that. `conformance` and `mixed` speak of content models that are orderly: of the forms of
  a composed schema, with references that come to an end, no attribute in a repeated group,
  and data that stands apart from what takes children. `contents`: that every content model
  that an accepted schema comes to from its start is orderly, so that all of this holds of it.
  `attribute_order`, `nullability`: that the order of attributes does not matter, and what
  accepts that nothing follows.
- `acyclic`, `references`, `forms`, `placement`, `self_contained`, `determinism`,
  `datatype_support`: what holds of every schema that is accepted.

`app/` is ordinary Rust around the library: its errors with the traits of std, and an
example.
