# ce_minimizer

A verified library for minimising deterministic finite automata.

- `automaton`: automata (`DFA`, `NamedDFA`, `Edge`), their model, transitions and runs.
- `reach`: reachable states and the automaton restricted to them.
- `equivalence`: distinguishability of states and the table that records it.
- `quotient`: the automaton of classes of indistinguishable states.
- `minimizer`: `NamedDFA::minimize`, with its language, minimality and
  idempotence guarantees.
- `text`, `dfa`: the text format of automata (`parse_dfa`) and their Graphviz
  rendering (`dfa_to_dot`).
- `env`, `playground`, `report`: task types, a word-capitalising exercise and
  an HTML report of minimisations.

`app/` holds the serialisable forms of the task types, error types for
`std::error::Error`, and random generation of exercise inputs.
