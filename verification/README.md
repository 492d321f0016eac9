# prompt_shield

Pattern-based prompt-injection detection for LLM applications, written in
Verus. The library's functions carry contracts that Verus proves, except
three small wrappers whose contracts are believed rather than proved: the
calls into the `regex` crate (compile a pattern and list its matches), into
the `base64` crate (decode without padding) and `String::from_utf8`. The
regex matches and the decoded bytes are named in the contracts, not
restated; `String::from_utf8` is stated as std documents it.

A `Shield` runs rules over an input (role override, tool-call injection,
system-prompt extraction, format break, hidden delimiter characters, and
base64/hex encoded payloads), sorts the findings by position, rates the input
by its most severe finding, redacts serious spans with `[REDACTED]`, and
refuses inputs whose risk reaches the block threshold.

Layout of `src/`:

- `findings.rs`, `risk_order.rs`: risk levels and their order, findings, reports.
- `rule.rs`: the `Rule` trait, whose spec functions `spec_name` and
  `scan_spec` say what a rule's `name` and `scan` return, so a rule is
  written in Verus; `rules/`: the built-in rules.
- `pattern.rs`: regex-driven rules (the `regex` crate is called behind one trusted wrapper).
- `text.rs`: UTF-8 facts and byte-range slicing.
- `sorting.rs`: the stable order of findings; `redact.rs`: redaction.
- `shield.rs`: the shield (rules are added as `Box<dyn Rule>`, e.g.
  `Shield::new().with(Box::new(RoleOverride))`); `error.rs`: the refusal.
- `laws.rs`: properties of the library as a whole, proved.

`app/` adds `Display` and `std::error::Error` through wrapper types.
