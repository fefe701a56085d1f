# ogc-edr

An OGC API - Environmental Data Retrieval server over gridded reanalysis held as
cloud-optimised Zarr. EDR queries are turned into SQL scans, and what the scans
bring back is placed on the axes that were asked for.

- `src/` is the library: what the server decides, from the choice of its
  configuration to the bytes of a response, each function with a contract that
  Verus proves.
- `app/` is the program around it: HTTP, the query engine, files and environment,
  markup, and floating-point arithmetic.
- `tests/` runs the library on concrete requests.

## How numbers are handled

The library holds a floating-point number by its bits (`double::Double`), orders
and compares numbers, and decides by them. It does not compute with them: a
distance, a sum or the number that a text spells is worked out by the program and
handed over, in structs whose names end in `Measure`, in `edr::query::Measures`,
`axis::Spacing` and `store::Axes`, and in `numerals::Numerals`. For every such
value the contracts say what the library does with it.

## Where to start

- `edr::query::resolve` settles what a request selects, or why it is refused.
- `edr::result::assemble` places scanned rows; `edr::result` states that each value
  stands at its own coordinates and that none is lost.
- `edr::scan` writes the SQL, `edr::covjson` and `edr::geojson` the responses.
- `api` holds the documents, pages and content negotiation; `config` and
  `toml_text` the configuration; `store` what is read off a store's metadata.

Calls into other crates stand behind functions marked
`#[verifier::external_body]` in `clock` (chrono), `json` (serde_json) and
`toml_text` (toml); each says what is taken on trust.
