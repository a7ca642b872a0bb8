# Bounded repetition combinators

A verified library of parser combinators that apply a parser a bounded number
of times: `many`, `skip_many`, `many_till` and `sep_by`, driven by a range
(`a..b`, `a..`, `..b`, `..`) or an exact count (`usize`) through the
`BoundedRange` trait.

* `src/primitives.rs`: the input slice with its end-of-input flag and the
  three-way result (`Data`, `Error`, `Incomplete`).
* `src/combinators/bounded.rs`: the specification of each repetition as a
  relation between a parser (a closure, through `call_ensures`) and the
  outcomes it may produce, the verified loops that implement them, the
  `BoundedRange` impls, and the proved laws (bounds on the number of items,
  uniqueness of the outcome for deterministic parsers, `skip_many` as `many`
  without values, waiting for input when the end is not marked, range forms
  with the same bounds — `..n` and `0..n`, `0..` and `..`, `n` and
  `n..n+1` — giving the same outcome).
* `tests/`: scenarios run against small byte parsers.
