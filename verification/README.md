# rtk output filters

Filters that condense the verbose output of developer tools (`xcodebuild`,
`mix`, `mix run`, `mix test`, `git ls-files`) to the lines a reader needs,
written in Verus and verified against their specifications.

- `src/text.rs`: whitespace, trimming, splitting text into lines and joining
  them, decimal numbers; each with a specification matching the standard
  library's behaviour.
- `src/pattern.rs`: the regular expressions, compiled and matched by the
  `regex` crate behind two trusted functions.
- `src/cmds/`: one module per tool. Each states, as a spec function, what the
  filtered output of an input is, proves that the filter computes it, and
  proves laws about it (lines are only dropped or condensed, the lines that
  matter are kept, ...).
- `app/`: running the tools and printing their filtered output.
- `tests/`: scenarios for each filter and comparisons with the standard
  library.
