//! Input buffer and parse results.

use vstd::prelude::*;

verus! {

/// A slice of the remaining input together with the flag that tells whether
/// more data may follow it.
///
/// `end_of_input` is set when `data` is the last slice of the stream: a
/// parser that runs out of data there cannot hope for more.
#[derive(Clone, Copy, PartialEq, Eq, Debug)]
pub struct Input<'a> {
    pub data: &'a [u8],
    pub end_of_input: bool,
}

/// The outcome of running a parser.
///
/// * `Data(rest, value)`: the parser succeeded, `rest` is the input after the
///   consumed part;
/// * `Error(at, err)`: the parser failed at `at`;
/// * `Incomplete(at, n)`: at least `n` more bytes are needed at `at`.
#[derive(PartialEq, Eq, Debug)]
pub enum State<'a, T, E> {
    Data(Input<'a>, T),
    Error(Input<'a>, E),
    Incomplete(Input<'a>, usize),
}

/// The value a parser returns; `into_inner` exposes its `State`.
#[derive(PartialEq, Eq, Debug)]
pub struct ParseResult<'a, T, E>(pub State<'a, T, E>);

impl<'a, T, E> ParseResult<'a, T, E> {
    /// The state held by this result.
    pub fn into_inner(self) -> (s: State<'a, T, E>)
        ensures
            s == self.0,
    {
        self.0
    }
}

} // verus!
