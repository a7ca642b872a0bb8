//! Further scenarios: the documented example, `sep_by`, exact counts for
//! `many_till`, the bounds of each range type, and concrete instances of the
//! laws the library proves.

use lib::combinators::bounded::{many, many_till, sep_by, skip_many, BoundedRange};
use lib::primitives::{Input, ParseResult, State};

fn buf(end_of_input: bool, data: &[u8]) -> Input<'_> {
    Input { data, end_of_input }
}

#[derive(Debug, PartialEq, Eq)]
enum Fail {
    Expected(u8),
    Separator(SepErr),
}

#[derive(Debug, PartialEq, Eq)]
struct SepErr(u8);

impl From<SepErr> for Fail {
    fn from(e: SepErr) -> Fail {
        Fail::Separator(e)
    }
}

fn any(i: Input<'_>) -> ParseResult<'_, u8, Fail> {
    match i.data.split_first() {
        Some((&c, rest)) => ParseResult(State::Data(Input { data: rest, ..i }, c)),
        None => ParseResult(State::Incomplete(i, 1)),
    }
}

fn token(i: Input<'_>, t: u8) -> ParseResult<'_, u8, Fail> {
    match i.data.split_first() {
        Some((&c, rest)) if c == t => ParseResult(State::Data(Input { data: rest, ..i }, c)),
        Some(_) => ParseResult(State::Error(i, Fail::Expected(t))),
        None => ParseResult(State::Incomplete(i, 1)),
    }
}

/// A lower-case letter.
fn letter(i: Input<'_>) -> ParseResult<'_, u8, Fail> {
    match i.data.split_first() {
        Some((&c, rest)) if c.is_ascii_lowercase() => {
            ParseResult(State::Data(Input { data: rest, ..i }, c))
        },
        Some(_) => ParseResult(State::Error(i, Fail::Expected(b'a'))),
        None => ParseResult(State::Incomplete(i, 1)),
    }
}

/// A comma, with its own error type.
fn comma(i: Input<'_>) -> ParseResult<'_, (), SepErr> {
    match i.data.split_first() {
        Some((&b',', rest)) => ParseResult(State::Data(Input { data: rest, ..i }, ())),
        Some(_) => ParseResult(State::Error(i, SepErr(b','))),
        None => ParseResult(State::Incomplete(i, 1)),
    }
}

#[test]
fn doc_example_any_two_or_three_times() {
    let r = many(buf(true, b"abcd"), 2..4, any);
    assert_eq!(r.into_inner(), State::Data(buf(true, b"d"), vec![b'a', b'b', b'c']));
}

#[test]
fn bounds_of_each_range() {
    assert_eq!((2..5usize).bounds(), (2, Some(4)));
    assert_eq!((0..0usize).bounds(), (0, Some(0)));
    assert_eq!((0..1usize).bounds(), (0, Some(0)));
    assert_eq!((3usize..).bounds(), (3, None));
    assert_eq!((..).bounds(), (0, None));
    assert_eq!((..0usize).bounds(), (0, Some(0)));
    assert_eq!((..3usize).bounds(), (0, Some(2)));
    assert_eq!(3usize.bounds(), (3, Some(3)));
}

#[test]
fn trait_methods_match_the_functions() {
    let f = |i| token(i, b'a');
    assert_eq!(
        (1..3usize).parse_many(buf(true, b"aaab"), f).into_inner(),
        many(buf(true, b"aaab"), 1..3usize, f).into_inner()
    );
    assert_eq!(
        (1..3usize).skip_many(buf(true, b"aaab"), f).into_inner(),
        State::Data(buf(true, b"ab"), ())
    );
    assert_eq!(
        (1usize..).many_till(buf(true, b"aab"), f, |i| token(i, b'b')).into_inner(),
        State::Data(buf(true, b""), vec![b'a', b'a'])
    );
}

#[test]
fn count_stays_within_bounds() {
    for n in 0..6usize {
        let data = vec![b'a'; n];
        let r = many(buf(true, &data), 1..4usize, |i| token(i, b'a'));
        match r.into_inner() {
            State::Data(_, vs) => assert!(1 <= vs.len() && vs.len() <= 3),
            State::Incomplete(_, _) => assert_eq!(n, 0),
            State::Error(_, _) => unreachable!(),
        }
    }
}

#[test]
fn skip_many_is_many_without_values() {
    let inputs: [&[u8]; 5] = [b"", b"a", b"aab", b"aaaab", b"b"];
    for d in inputs.iter() {
        for eoi in [false, true] {
            let m = many(buf(eoi, d), 1..4usize, |i| token(i, b'a')).into_inner();
            let s = skip_many(buf(eoi, d), 1..4usize, |i| token(i, b'a')).into_inner();
            let dropped = match m {
                State::Data(b, _) => State::Data(b, ()),
                State::Error(b, e) => State::Error(b, e),
                State::Incomplete(b, n) => State::Incomplete(b, n),
            };
            assert_eq!(s, dropped);
        }
    }
}

#[test]
fn waits_for_more_input_unless_at_end() {
    // `any` never fails outright: without the end mark only the bound ends it
    let r = many(buf(false, b"abc"), .., any);
    assert_eq!(r.into_inner(), State::Incomplete(buf(false, b""), 1));
    let r = many(buf(false, b"abc"), ..3usize, any);
    assert_eq!(r.into_inner(), State::Data(buf(false, b"c"), vec![b'a', b'b']));
    let r = many(buf(true, b"abc"), .., any);
    assert_eq!(r.into_inner(), State::Data(buf(true, b""), vec![b'a', b'b', b'c']));
}

#[test]
fn empty_upper_bound_takes_nothing() {
    let r = many(buf(true, b"aaa"), ..1usize, |i| token(i, b'a'));
    assert_eq!(r.into_inner(), State::Data(buf(true, b"aaa"), vec![]));
    let r = many(buf(true, b"aaa"), 0usize, |i| token(i, b'a'));
    assert_eq!(r.into_inner(), State::Data(buf(true, b"aaa"), vec![]));
    let r = skip_many(buf(false, b"aaa"), 0..0usize, |i| token(i, b'a'));
    assert_eq!(r.into_inner(), State::Data(buf(false, b"aaa"), ()));
}

#[test]
fn skip_many_empty_range_after_start() {
    // `2..2` allows no count; the skipping loop stops when the upper bound
    // (one item) is used up
    let r = skip_many(buf(true, b"aaa"), 2..2usize, |i| token(i, b'a'));
    assert_eq!(r.into_inner(), State::Data(buf(true, b"aa"), ()));
}

#[test]
fn many_till_exact_count() {
    let p = |i| token(i, b'a');
    let end = |i| token(i, b'b');
    let r = many_till(buf(true, b"aab"), 2usize, p, end);
    assert_eq!(r.into_inner(), State::Data(buf(true, b""), vec![b'a', b'a']));
    // `end` is only tried after exactly two items, and its failure is passed on
    let r = many_till(buf(true, b"aaab"), 2usize, p, end);
    assert_eq!(r.into_inner(), State::Error(buf(true, b"ab"), Fail::Expected(b'b')));
    let r = many_till(buf(true, b"ab"), 2usize, p, end);
    assert_eq!(r.into_inner(), State::Error(buf(true, b"b"), Fail::Expected(b'a')));
    let r = many_till(buf(false, b"aa"), 2usize, p, end);
    assert_eq!(r.into_inner(), State::Incomplete(buf(false, b""), 1));
}

#[test]
fn many_till_converts_end_errors() {
    let r = many_till(buf(true, b"aa;"), ..3usize, |i| token(i, b'a'), comma);
    assert_eq!(r.into_inner(), State::Error(buf(true, b";"), Fail::Separator(SepErr(b','))));
    let r = many_till(buf(true, b"aa,x"), ..3usize, |i| token(i, b'a'), comma);
    assert_eq!(r.into_inner(), State::Data(buf(true, b"x"), vec![b'a', b'a']));
}

#[test]
fn sep_by_any_number() {
    let r = sep_by(buf(true, b"a,b,c"), .., letter, comma);
    assert_eq!(r.into_inner(), State::Data(buf(true, b""), vec![b'a', b'b', b'c']));
    let r = sep_by(buf(true, b"a,b,c;"), .., letter, comma);
    assert_eq!(r.into_inner(), State::Data(buf(true, b";"), vec![b'a', b'b', b'c']));
    let r = sep_by(buf(true, b""), .., letter, comma);
    assert_eq!(r.into_inner(), State::Data(buf(true, b""), vec![]));
    let r = sep_by(buf(true, b";"), .., letter, comma);
    assert_eq!(r.into_inner(), State::Data(buf(true, b";"), vec![]));
}

#[test]
fn sep_by_trailing_separator_is_left() {
    // the separator and the item after it form one step: a separator without
    // an item is not consumed
    let r = sep_by(buf(true, b"a,b,"), .., letter, comma);
    assert_eq!(r.into_inner(), State::Data(buf(true, b","), vec![b'a', b'b']));
    let r = sep_by(buf(true, b"a,b,1"), .., letter, comma);
    assert_eq!(r.into_inner(), State::Data(buf(true, b",1"), vec![b'a', b'b']));
    let r = sep_by(buf(false, b"a,b,"), .., letter, comma);
    assert_eq!(r.into_inner(), State::Incomplete(buf(false, b","), 1));
}

#[test]
fn sep_by_bounds() {
    let r = sep_by(buf(true, b"a,b,c,d"), 1..3usize, letter, comma);
    assert_eq!(r.into_inner(), State::Data(buf(true, b",c,d"), vec![b'a', b'b']));
    let r = sep_by(buf(true, b"a,b,c"), 3usize, letter, comma);
    assert_eq!(r.into_inner(), State::Data(buf(true, b""), vec![b'a', b'b', b'c']));
    // too few items: the failure of the separator is converted and passed on
    let r = sep_by(buf(true, b"a,b;c"), 3usize, letter, comma);
    assert_eq!(r.into_inner(), State::Error(buf(true, b";c"), Fail::Separator(SepErr(b','))));
    // too few items: the failure of the item is passed on
    let r = sep_by(buf(true, b"a,1"), 2usize.., letter, comma);
    assert_eq!(r.into_inner(), State::Error(buf(true, b"1"), Fail::Expected(b'a')));
    let r = sep_by(buf(true, b"1"), 1usize.., letter, comma);
    assert_eq!(r.into_inner(), State::Error(buf(true, b"1"), Fail::Expected(b'a')));
    let r = sep_by(buf(true, b"a,b"), ..1usize, letter, comma);
    assert_eq!(r.into_inner(), State::Data(buf(true, b"a,b"), vec![]));
}

#[test]
fn parsers_with_state() {
    // parsers may keep state between calls
    let mut calls = 0;
    let r = many(buf(true, b"aab"), .., |i| {
        calls += 1;
        token(i, b'a')
    });
    assert_eq!(r.into_inner(), State::Data(buf(true, b"b"), vec![b'a', b'a']));
    assert_eq!(calls, 3);
    let mut ends = 0;
    let r = many_till(buf(true, b"aab"), .., |i| token(i, b'a'), |i| {
        ends += 1;
        token(i, b'b')
    });
    assert_eq!(r.into_inner(), State::Data(buf(true, b""), vec![b'a', b'a']));
    assert_eq!(ends, 3);
}
