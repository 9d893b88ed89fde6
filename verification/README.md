# earwig

The template preprocessor of the Earwig web framework, as a verified library.
An `.ear` file mixes plain text with indented template blocks (`?MIME: JSON`,
`?HEADERS:`, `?INSERT:`, `?PRESET:` ...); the preprocessor parses it into a tree
of nodes, walks the tree and prints the Python that the templates stand for.

The library (`src/`) is written in Verus: every function carries a contract
over a mathematical model of its data, and the properties that span several
functions are stated and proved as lemmas.

- `text` — character helpers: decimal rendering, literal replacement,
  splitting into parts and lines.
- `datatypes` — `Parameter` and `Node`, their models, and keyed scopes.
- `arena` — trees under construction, as slots of a vector.
- `parser` — `parse_source`, a state machine over the characters of a source.
- `parserutilities` — argument typing (`parameter_determine`), rendering
  (`parse_type`) and the stored form of presets (`node_to_json_preset`).
- `jsondeserializer` — the reader of stored presets (`deserialize`).
- `interpreter` — `Node::interpret`: the walk over a tree and the calls it asks for.
- `effects` — whether a call can be made (`Node::can_call`) and what it does
  (`Node::call_effect`), inserted files with their substitutions
  (`insert_file`, through the `regex` crate), and the loading of stored
  presets.
- `errorhandler` — error reasons and the messages that report them.
- `settingshandler` — the settings argument.
- `laws` — properties across functions: parsing under the global scope
  always succeeds, only adds entries to the root and gives a tree that can
  be interpreted; blank lines and comment lines change nothing; every scope
  holds each key once; the stored form of a node ignores its name, render
  flag and arguments; and stored presets are found again by name.

`app/` holds the program around the library: reading files, printing,
writing and reading the preset file `earData.json`, and exiting on fatal
errors.
