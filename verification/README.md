# futures_async_combinators

Combinators for futures and streams (`map`, `and_then`, `take`, `zip`,
`flatten`, `fold`, `unfold`, ...), with their logic verified by Verus.

- `src/` is the verified library. Each stream combinator is a step machine:
  the driver pulls upstream (and awaits the user's closure where the machine
  needs its verdict), hands the machine what it got, and does what the machine
  answers (`Step::Yield`, `Step::Skip`, `Step::Stop`). Next to each machine a
  proof function states what a whole run of it yields (for example, `take(n)`
  yields the first `n` items). The future combinators in `src/future.rs` are
  what each one computes once the wrapped future has resolved.
- `app/` is the asynchronous API built on `futures`: it awaits, polls and
  pins, and asks `src/` at every decision.
- `tests/` drives the machines on concrete streams.
