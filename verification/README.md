# z_sharp

A lexer whose rules come from Luau scripts ("modifications").  A script
registers chains of rules; each chain becomes a consumer, and the consumers
take turns eating a source text until it is used up or none of them can go on.

Rules match a regular expression at the start of the text (`Single`), try
named alternatives (`Or`), repeat (`Repeat`), run another chain (`Child`), or
ask a Lua function (`Logic`).

## Layout

- `src/` — the library, verified with Verus.
  - `strmap.rs`: an insertion-ordered map from strings, used wherever named
    results or properties are kept.
  - `pattern.rs`: the regular expressions of `Single` rules (the `regex`
    crate does the matching).
  - `lexer/`: rules, chains and consumers; what a check and a consume return
    is stated against a model that reads Lua's verdicts from a tape.
  - `modification/`: configured rules (each kind with its own configuration),
    their chains and consumers, and small wrappers around Lua
    values.
  - `build/`: the intermediate stage of a build — consumers from registered
    chains, sources found by resolvers, and interpreting a source.
  - `parser/`: the syntax tree and a window onto its nodes.
- `tests/` — tests of the library on concrete inputs.
- `app/` — the Lua side: the `@z_sharp` module, rules and chains as Lua
  userdata, loading scripts, and asking source resolvers asynchronously.
