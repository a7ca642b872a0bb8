//! Parser combinators that apply a parser a bounded number of times.
//!
//! `primitives` holds the input buffer and the three-way parse result;
//! `combinators::bounded` holds `many`, `skip_many`, `many_till` and `sep_by`
//! together with the `BoundedRange` trait that turns the core range types
//! (and `usize` for an exact count) into lower and upper bounds.

pub mod primitives;
pub mod combinators;
