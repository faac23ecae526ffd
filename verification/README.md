# axiom-core

A rules engine verified with Verus. Rules are documents with a condition tree
(`all` / `any` / `none` / `not` over leaf comparisons) and actions (set,
increment, append, tag, trigger, call another rule, return, log). A registry
keeps every version of each rule, treats the highest as active, groups rules
into rulesets, and evaluates requests under the first-match, all-match or
scored strategy, optionally as a dry run and under a time budget.

## Layout

- `src/` — the verified library.
  - `json`, `number`, `text`: JSON values with exact rational numbers, and
    string helpers.
  - `resolver`: dot / index paths into a context.
  - `operators`: the leaf comparison operators.
  - `expression`: the `{{ ... }}` template language (tokenizer, parser with
    a limit of 16 on the depth of the expression tree, evaluator).
  - `evaluator`: condition trees, actions, strategies and the whole
    evaluation, specified by `evaluation_spec`.
  - `call_rule_guard`: load-time check that `call_rule` targets exist, do
    not form a cycle and do not chain beyond the call depth limit.
  - `registry`: versioned rule storage and request evaluation; a rule or a
    bundle refused by the `call_rule` check leaves the registry as it was.
  - `parser`: the checks a rule document must pass.
  - `auth`, `server`, `rate_limit`, `webhook`, `config`, `suite`: the
    decisions of the HTTP server and of the command-line tool.
  - `*_laws`: properties relating several operations, proved as lemmas.
- `tests/` — tests of the library.
- `app/` — the `axiom` program: command line, HTTP server, storage, YAML /
  JSON reading, metrics and webhook delivery.
