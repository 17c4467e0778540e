# json_schema_tools

Tools for rendering and interactively filling in JSON Schemas, written in Verus: what each
function returns is stated in its contract and proved.

- **`render_body_schema`** renders a schema as a compact, BNF-style grammar reference. Each
  `$ref` becomes its own named production, tagged unions are annotated with their
  discriminator field, optional fields are bracketed, and defaults are shown inline.
- **`generate_value`** gives a placeholder JSON value for a schema, resolving `$ref`s against
  a definitions map. Objects hold only required properties, unions pick the first viable
  variant, scalars get empty or zero values, and enums use their first value. A variant whose
  references never come to an end is passed over in a `oneOf` that starts with a `null`.
  Elsewhere there is no value where they never do; `try_generate_value` tells.
- **`App`** is an interactive session: a tree of fields that is browsed, expanded and chosen
  from with the keyboard. `App::handle_key` does what a key asks for; `q` exports the body,
  `Esc` and `Ctrl-C` cancel.

## Layout

| Path | What it holds |
| --- | --- |
| `src/text.rs`, `names.rs`, `json.rs`, `style.rs` | strings, sorted names, JSON values, colours |
| `src/schema.rs`, `naming.rs`, `properties.rs` | schemas and the helpers that read them |
| `src/generate.rs`, `generate_laws.rs` | placeholder values |
| `src/render.rs`, `usage.rs`, `production.rs`, `document.rs` | the grammar reference |
| `src/finite.rs`, `colour.rs` | the grammar comes to an end; colours only decorate |
| `src/present.rs`, `node.rs`, `tree.rs` | the tree, and what it exports |
| `src/rows.rs`, `session.rs`, `screen.rs` | rows, keys, and how a row looks |
| `src/sound.rs`, `laws.rs`, `reach.rs`, `settled.rs` | what holds of every session |
| `src/agree.rs`, `ordinary.rs` | a session starts out with the placeholder value of its schema |
| `tests/` | examples, run against the compiled library |
| `app/` | `schemars` and `serde_json` in and out, files, and the terminal |

Public functions named `lemma_..` state what holds of the library as a whole; the `requires`
of each says of which inputs, all of them where there is none.
What is taken on trust of `serde_json` and of the standard library stands in `json.rs`,
`text.rs` and `naming.rs`, each item with a comment that says what it claims.
