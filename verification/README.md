# lead_build

Lead Build is a declarative build system: a build description, written in a
small functional language, evaluates to build rules and builds, which are
written out as a Ninja file.

The library is verified with Verus: its functions carry `requires` /
`ensures` contracts over mathematical models (sequences, maps, paths as
component lists), and the proofs are checked by the verifier.

## Layout

- `src/lang/` — the language: tokens and parser (`parser.rs`), expression
  nodes kept in a pool and rewritten in place by evaluation (`expr.rs`,
  `eval.rs`), patterns, errors, and writing expressions back as text
  (`export.rs`).
- `src/immap.rs` — the ordered string-keyed map used for objects and scopes.
- `src/value.rs` — values and the operators on them.
- `src/path.rs` — paths anchored at a root that `..` cannot leave.
- `src/stringdecode.rs` — `${...}` substitutions in string literals.
- `src/pbbuild.rs` — the `pb` builtins (`rule`, `build`, `lock`,
  `translate`, `retype`) and how builds become Ninja statements.
- `src/ninjawriter.rs` — a model of a Ninja file and its exact text.
- `src/context.rs` — the arguments a build file's function receives.
- `app/` — the `pb` command: arguments, reading files for `include`, and
  writing `build.ninja`.
- `tests/` — tests of the library on concrete inputs.

Laws that hold of the library as a whole (for example that `..` after a
step down returns to the same path, that Ninja rule names are unique, or
that an evaluated node is left as it is) are stated as public proof
functions named `law_*` next to the functions they speak of.
