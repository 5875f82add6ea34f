# q-gate

A code quality gate for Java and Kotlin repositories: god classes, layering
rules, dead code and structural duplication, Gradle-detected and configured
quality aspects, and a baseline of suppressed findings.

The library under `src/` is verified with Verus: every public function states
in its contract what it returns, over spec functions of the same module.

- `syntax`, `analyzer`: syntax trees built from what the tree-sitter Java and
  Kotlin grammars report, checked to form a tree over the source.
- `rules`: the god-class, layering, dead-code and duplication rules, each
  specified by the exact list of findings it reports.
- `aspects`: Gradle plugin detection and the orchestration of aspect commands
  (what runs, how output is bounded, what a failure means).
- `audit`, `path_policy`, `git`, `config`: scopes, routing of aspects,
  settings merging, baseline suppression, excluded directories, report paths
  and `git status` records.

Public proof functions state the properties that hold across calls, such as
order independence of duplication findings, baseline suppression, merge
precedence and the native fallback for aspects without a command.

`app/` is the command-line program: it reads files, runs commands and prints
the JSON report, leaving every decision to the library.
