# rsjsonnet-lang (verified core)

The data model, readers and writers of a Jsonnet implementation, written in
Verus: every function under `src/` carries a contract that Verus proves.

## Layout

- `src/value.rs` — a fully evaluated value. A number is held as its decimal
  text; an object lists its fields, and every writer prints them in the
  order of their names (`normalize` puts them in that order).
- `src/span.rs` — source contexts and span identifiers.
- `src/json.rs` — the reader of `std.parseJson`; `src/yaml_text.rs`,
  `src/yaml.rs`, `src/yaml_scalar.rs` — the reader of `std.parseYaml`: the
  events that `saphyr_parser` gives on the text, the values they build, and
  what a plain scalar stands for; `src/radix.rs` —
  `std.parseOctal` / `std.parseHex` digits.
- `src/manifest*.rs` — JSON, YAML, Python, INI, XML (JsonML) and TOML text.
- `src/format.rs` — `%` format strings and the integer renderers;
  `src/formatting.rs` — `std.format` with an array or an object: which
  value each code takes, the checks on widths and precisions, and what each
  code makes of its value, laid out in its field (numbers are left to a
  floating-point renderer in `app/`).
- `src/strings.rs`, `src/base64.rs`, `src/hashing.rs`, `src/std_values.rs`,
  `src/merge_patch.rs` — the string, byte and value functions of the
  standard library.
- `src/call_args.rs` — binding a call's positional and named arguments to
  a function's parameters, with defaults.
- `src/json_roundtrip.rs` — the proof that the JSON reader reads back what
  the JSON writer writes.
- `src/error.rs`, `src/token.rs` — error and token types.
- `app/` — what needs floating point or an outside parser's own types:
  numbers as `f64` (among them those of YAML scalars), TOML from `toml`.

## What is proved beyond the contracts

- Reading back a string that `std.escapeStringJson` wrote gives the string
  (`json::law_json_string_roundtrip`).
- Reading back the JSON text of a value gives the value, in every layout
  whose indent, line end and separators are whitespace around `:` and `,`,
  for values whose numbers are JSON numbers, whose strings hold none of
  U+001A to U+001F and whose objects name no key twice
  (`json_roundtrip::law_json_roundtrip`); the layouts of `std.toString` and
  of a manifested program are such layouts
  (`json_roundtrip::law_default_layouts_read_back`).
- Base64 decoding undoes encoding (`base64::law_base64_roundtrip`).
- Span identifiers look up the span they were made for, interning is
  idempotent, and one span gets one identifier however many contexts and
  spans are added in between (`span::law_*`, `span::law_intern_identity`).
- Sorting fields orders them, keeps them all, and leaves sorted fields alone
  (`normalize::law_sort_fields_*`).
- `std.strReplace` is splitting then joining; joining what `std.split` gave
  with its separator gives the string back (`strings::law_*`).
- `std.prune` and `std.mergePatch` are idempotent, `std.reverse` an
  involution on arrays, and `std.flattenDeepArray` leaves no arrays
  (`std_values::law_*`, `merge_patch::law_*`).
- Binding a call's arguments gives each parameter one value: positional
  arguments in order, each named argument to exactly one parameter, and
  defaults only where a parameter has one
  (`call_args::law_call_args_bind_once`).
- Every digest is written with two hexadecimal digits per byte
  (`hashing::law_hex_length`).
