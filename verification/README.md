# bind_rs

Monads in the style of OCaml and MTL, as Rust traits, verified with Verus.

A type `M` is a monad through `Monad<'a, T>` (its computations of a `T`, and
`ret`) and `MonadBind<'a, A, B>` (`bind_impl`); `MonadRepr` gives the method
syntax `v.bind(f)`. The library has the identity, state, reader, owned-reader,
writer and reader-writer monads, and `for_m` / `map_m`, which loop over a
sequence in any monad.

Each computation has a meaning that the contracts speak of: for a state
computation, the relation between a start state and the pairs of end state and
value it may give; for a reader, the relation between an environment and the
values; and so on. `ret`, `bind_impl` and the monads' own actions (`get`,
`put`, `ask`, `local`, `write`, ...) state the meaning of what they build, and
`run` / `eval` give a result that the meaning allows. The monad laws, and the
laws of each monad's actions, are proved over these meanings in the module of
each monad. Meanings are relations because a closure's contract may allow more
than one result; where the meanings are deterministic, the `*_runs` laws carry
the monad laws over to the results of runs (`state_deterministic`,
`rw_deterministic`), and `state_eval_is_run_value` ties `eval` to `run`.

Layout:

- `src/bind.rs`: the traits.
- `src/identity.rs`, `src/state.rs`, `src/reader.rs`, `src/reader_owned.rs`,
  `src/writer.rs`, `src/reader_writer.rs`: the monads and their laws.
- `src/control.rs`: `for_m` and `map_m`.
- `app/`: the monads whose computations are futures (`FutureM`,
  `ReaderFutureM`), on the `futures` crate.
- `tests/`: tests on concrete values.
