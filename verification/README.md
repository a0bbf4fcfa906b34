# biome_text

Verified building blocks of a toolchain for web languages, written in Verus:

- `case`, `cases`: identify the case of an identifier (`camelCase`,
  `CONSTANT_CASE`, `kebab-case`, ...), convert between cases, and sets of cases
  with their iteration (by decreasing leading bit; collecting it gives the
  set back). The case of a name tells which characters it holds;
  converting ASCII text to a flat case twice changes nothing, and
  kebab-case, lowercase and UPPERCASE respell snake_case and CONSTANT_CASE.
- `collate`, `collate_order`, `weights`, `str_ext`: a natural order on ASCII
  strings (numbers compared as numbers, `A` < `a` < `B` < `b`) from the CLDR
  collation of ASCII, proved to be an order (it compares keys in which a run
  of digits is one number, and it puts decimal renderings in the order of the
  numbers), and lowercasing helpers that give what `String::to_lowercase`
  gives and borrow the input when that is the input itself.
- `yaml_scope`, `yaml_lexer`: a YAML lexer that tracks block and flow
  collections by indentation; its tokens are specified exactly by `lex_step`,
  and they follow one another through the text, each byte in one token.
- `json_syntax`, `json_tree`, `json_parser`: a JSON parser with error recovery
  that builds a lossless syntax tree as a list of events; `json_tree` tells
  step by step which events and diagnostics it builds; valid JSON parses
  without a diagnostic, and with the default options nothing else does
  (but for a byte order mark and the lexer's erroneous tokens).
- `template_element`, `js_program`: layout decisions of the JavaScript
  formatter for template elements, and the root of a JavaScript program.
- `unicode`: the few standard-library Unicode functions the library relies on,
  with what is assumed of them.

`tests/` holds the tests; `app/` holds what cannot be verified (display, OS
strings, diagnostic messages).
