//! Bounded versions of `many`, `skip_many`, `many_till` and `sep_by`.
//!
//! A range describes how often the item parser may be applied: `a..b` allows
//! between `a` and `b - 1` items, `a..` at least `a`, `..b` at most `b - 1`,
//! `..` any number, and a plain `usize` exactly that many.

use vstd::prelude::*;
use std::ops::{Range, RangeFrom, RangeFull, RangeTo};

use crate::primitives::{Input, ParseResult, State};

verus! {

// ---------------------------------------------------------------------------
// Properties of parsers
// ---------------------------------------------------------------------------

/// The parser may be called on every input.
pub open spec fn parser_total<'a, U, E, F>(f: F) -> bool
    where F: FnMut(Input<'a>) -> ParseResult<'a, U, E>,
{
    forall|x: Input<'a>| #[trigger] call_requires(f, (x,))
}

/// `x` is what is left of `i` once some of its leading bytes are consumed:
/// the data of `x` is a suffix of the data of `i`.
pub open spec fn rest_of<'a>(x: Input<'a>, i: Input<'a>) -> bool {
    &&& x.data@.len() <= i.data@.len()
    &&& x.data@ == i.data@.skip(i.data@.len() - x.data@.len())
}

/// On what is left of `i`, every success of the parser leaves a strictly
/// shorter rest of its input.  A repetition without an upper bound reaches
/// only such inputs from `i`, and terminates when this holds.
pub open spec fn consumes_within<'a, U, E, F>(f: F, i: Input<'a>) -> bool
    where F: FnMut(Input<'a>) -> ParseResult<'a, U, E>,
{
    forall|x: Input<'a>, o: ParseResult<'a, U, E>|
        rest_of(x, i) && #[trigger] call_ensures(f, (x,), o) ==> (o.0 matches State::Data(b, _)
            ==> rest_of(b, x) && b.data@.len() < x.data@.len())
}

/// On what is left of `i`, every success of the parser leaves a rest of its
/// input, possibly all of it.
pub open spec fn never_grows_within<'a, U, E, F>(f: F, i: Input<'a>) -> bool
    where F: FnMut(Input<'a>) -> ParseResult<'a, U, E>,
{
    forall|x: Input<'a>, o: ParseResult<'a, U, E>|
        rest_of(x, i) && #[trigger] call_ensures(f, (x,), o) ==> (o.0 matches State::Data(b, _)
            ==> rest_of(b, x))
}

/// An input is what is left of itself.
proof fn lemma_rest_of_self<'a>(i: Input<'a>)
    ensures
        rest_of(i, i),
{
    assert(i.data@.skip(0) =~= i.data@);
}

/// What is left of what is left of `a` is left of `a`.
proof fn lemma_rest_of_trans<'a>(c: Input<'a>, b: Input<'a>, a: Input<'a>)
    requires
        rest_of(c, b),
        rest_of(b, a),
    ensures
        rest_of(c, a),
{
    let (la, lb, lc) = (a.data@.len(), b.data@.len(), c.data@.len());
    assert(a.data@.skip(la - lb).skip(lb - lc) =~= a.data@.skip(la - lc));
}

/// On a given input the parser has at most one outcome.
pub open spec fn deterministic<'a, U, E, F>(f: F) -> bool
    where F: FnMut(Input<'a>) -> ParseResult<'a, U, E>,
{
    forall|x: Input<'a>, o1: ParseResult<'a, U, E>, o2: ParseResult<'a, U, E>|
        #[trigger] call_ensures(f, (x,), o1) && #[trigger] call_ensures(f, (x,), o2) ==> o1 == o2
}

// ---------------------------------------------------------------------------
// Results with the collected items as a sequence
// ---------------------------------------------------------------------------

/// The state with its collected vector seen as a sequence.
pub open spec fn seq_state<'a, U, E>(s: State<'a, Vec<U>, E>) -> State<'a, Seq<U>, E> {
    match s {
        State::Data(b, v) => State::Data(b, v@),
        State::Error(b, e) => State::Error(b, e),
        State::Incomplete(b, n) => State::Incomplete(b, n),
    }
}

/// The state with the collected items thrown away.
pub open spec fn unit_state<'a, U, E>(s: State<'a, Seq<U>, E>) -> State<'a, (), E> {
    match s {
        State::Data(b, _) => State::Data(b, ()),
        State::Error(b, e) => State::Error(b, e),
        State::Incomplete(b, n) => State::Incomplete(b, n),
    }
}

/// `s` put in front of the collected items; other states are unchanged.
pub open spec fn prepend_all<'a, U, E>(s: Seq<U>, r: State<'a, Seq<U>, E>) -> State<'a, Seq<U>, E> {
    match r {
        State::Data(b, vs) => State::Data(b, s + vs),
        _ => r,
    }
}

/// `v` put in front of the collected items; other states are unchanged.
pub open spec fn prepend<'a, U, E>(v: U, r: State<'a, Seq<U>, E>) -> State<'a, Seq<U>, E> {
    prepend_all(seq![v], r)
}

/// The collected items without the first one; other states are unchanged.
pub open spec fn behead<'a, U, E>(r: State<'a, Seq<U>, E>) -> State<'a, Seq<U>, E> {
    match r {
        State::Data(b, vs) => State::Data(b, vs.drop_first()),
        _ => r,
    }
}

// ---------------------------------------------------------------------------
// Counting
// ---------------------------------------------------------------------------

/// One less, but never below zero.
pub open spec fn dec_nat(n: nat) -> nat {
    if n == 0 {
        0
    } else {
        (n - 1) as nat
    }
}

/// The upper bound after one more item.
pub open spec fn dec_bound(max: Option<nat>) -> Option<nat> {
    match max {
        Some(m) => Some(dec_nat(m)),
        None => None,
    }
}

/// Termination measure of a repetition: what is left of its upper bound.
pub open spec fn bound_measure(max: Option<nat>) -> nat {
    match max {
        Some(m) => m,
        None => 0,
    }
}

/// Whether one more item may be taken after a success that left `b` of `i`:
/// with an upper bound, when some of it is left; without, when input was
/// consumed.
pub open spec fn may_continue<'a>(max: Option<nat>, i: Input<'a>, b: Input<'a>) -> bool {
    match max {
        Some(m) => m > 0,
        None => b.data@.len() < i.data@.len(),
    }
}

/// `min <= max` when there is an upper bound.
pub open spec fn bounds_ordered(min: nat, max: Option<nat>) -> bool {
    match max {
        Some(m) => min <= m,
        None => true,
    }
}

/// `n` lies within the bounds.
pub open spec fn count_within(n: nat, min: nat, max: Option<nat>) -> bool {
    &&& min <= n
    &&& match max {
        Some(m) => n <= m,
        None => true,
    }
}

/// A machine bound seen as a natural number.
pub open spec fn opt_nat(x: Option<usize>) -> Option<nat> {
    match x {
        Some(m) => Some(m as nat),
        None => None,
    }
}

// ---------------------------------------------------------------------------
// Ends of a repetition
// ---------------------------------------------------------------------------

/// The item parser failed at `b` with `e` while the repetition stood at `at`
/// with `min` items still missing: with the minimum met, the repetition ends
/// at `at` with no further item, otherwise the failure is passed on.
pub open spec fn stop_on_error<'a, U, E>(min: nat, at: Input<'a>, b: Input<'a>, e: E) -> State<
    'a,
    Seq<U>,
    E,
> {
    if min == 0 {
        State::Data(at, Seq::empty())
    } else {
        State::Error(b, e)
    }
}

/// The item parser asked for `n` more bytes while the repetition stood at
/// `at`: only with the minimum met and no more data to come does the
/// repetition end there; otherwise it is incomplete at `at`.
pub open spec fn stop_on_incomplete<'a, U, E>(min: nat, at: Input<'a>, n: usize) -> State<
    'a,
    Seq<U>,
    E,
> {
    if min == 0 && at.end_of_input {
        State::Data(at, Seq::empty())
    } else {
        State::Incomplete(at, n)
    }
}

// ---------------------------------------------------------------------------
// many
// ---------------------------------------------------------------------------

/// `r` is an outcome of applying `f` repeatedly to `i`, with at least `min`
/// and at most `max` items still to be taken.
///
/// When the upper bound is used up the repetition ends without calling `f`.
/// Otherwise `f` is called once: a success adds its value in front of the
/// items of the remaining repetition, a failure ends the repetition as
/// `stop_on_error` and `stop_on_incomplete` say.
pub open spec fn many_rel<'a, U, E, F>(
    f: F,
    min: nat,
    max: Option<nat>,
    i: Input<'a>,
    r: State<'a, Seq<U>, E>,
) -> bool
    where F: FnMut(Input<'a>) -> ParseResult<'a, U, E>,
    decreases bound_measure(max), i.data@.len(), 1nat,
{
    if max == Some(0nat) {
        r == State::<'a, Seq<U>, E>::Data(i, Seq::empty())
    } else {
        exists|o: ParseResult<'a, U, E>|
            #[trigger] call_ensures(f, (i,), o) && many_step(f, min, max, i, o, r)
    }
}

/// The call of `f` on `i` returned `o`, and `r` is what the repetition makes
/// of it.
pub open spec fn many_step<'a, U, E, F>(
    f: F,
    min: nat,
    max: Option<nat>,
    i: Input<'a>,
    o: ParseResult<'a, U, E>,
    r: State<'a, Seq<U>, E>,
) -> bool
    where F: FnMut(Input<'a>) -> ParseResult<'a, U, E>,
    decreases bound_measure(max), i.data@.len(), 0nat,
{
    match o.0 {
        State::Data(b, v) => if may_continue(max, i, b) {
            &&& r == prepend(v, behead(r))
            &&& many_rel(f, dec_nat(min), dec_bound(max), b, behead(r))
        } else {
            false
        },
        State::Error(b, e) => r == stop_on_error::<U, E>(min, i, b, e),
        State::Incomplete(_, n) => r == stop_on_incomplete::<U, E>(min, i, n),
    }
}

/// A success of `f` on `i` extends every outcome of the remaining repetition
/// from `b` to an outcome of the repetition from `i`.
proof fn lemma_many_step<'a, U, E, F>(
    f: F,
    min: nat,
    max: Option<nat>,
    i: Input<'a>,
    o: ParseResult<'a, U, E>,
    b: Input<'a>,
    v: U,
)
    where F: FnMut(Input<'a>) -> ParseResult<'a, U, E>,
    requires
        max != Some(0nat),
        call_ensures(f, (i,), o),
        o.0 == State::<'a, U, E>::Data(b, v),
        may_continue(max, i, b),
    ensures
        forall|r: State<'a, Seq<U>, E>|
            #[trigger] many_rel(f, dec_nat(min), dec_bound(max), b, r) ==> many_rel(
                f,
                min,
                max,
                i,
                prepend(v, r),
            ),
{
    assert forall|r: State<'a, Seq<U>, E>|
        #[trigger] many_rel(f, dec_nat(min), dec_bound(max), b, r) implies many_rel(
        f,
        min,
        max,
        i,
        prepend(v, r),
    ) by {
        lemma_behead_prepend(v, r);
    }
}

proof fn lemma_behead_prepend<'a, U, E>(v: U, r: State<'a, Seq<U>, E>)
    ensures
        behead(prepend(v, r)) == r,
        prepend(v, behead(prepend(v, r))) == prepend(v, r),
{
    if let State::Data(b, vs) = r {
        assert((seq![v] + vs).drop_first() =~= vs);
    }
}

proof fn lemma_prepend_all_push<'a, U, E>(s: Seq<U>, v: U, r: State<'a, Seq<U>, E>)
    ensures
        prepend_all(s, prepend(v, r)) == prepend_all(s.push(v), r),
{
    if let State::Data(b, vs) = r {
        assert(s + (seq![v] + vs) =~= s.push(v) + vs);
    }
}

proof fn lemma_prepend_all_empty<'a, U, E>(s: Seq<U>, b: Input<'a>)
    ensures
        prepend_all(s, State::<'a, Seq<U>, E>::Data(b, Seq::empty())) == State::<
            'a,
            Seq<U>,
            E,
        >::Data(b, s),
{
    assert(s + Seq::<U>::empty() =~= s);
}

proof fn lemma_prepend_all_nil<'a, U, E>(r: State<'a, Seq<U>, E>)
    ensures
        prepend_all(Seq::<U>::empty(), r) == r,
{
    if let State::Data(b, vs) = r {
        assert(Seq::<U>::empty() + vs =~= vs);
    }
}

/// Applies `f` repeatedly from `i`, taking at least `min` and at most `max`
/// items, and collects the values.
fn run_many<'a, U, E, F>(i: Input<'a>, min: usize, max: Option<usize>, f: F) -> (r: ParseResult<
    'a,
    Vec<U>,
    E,
>)
    where F: FnMut(Input<'a>) -> ParseResult<'a, U, E>,
    requires
        parser_total(f),
        max is None ==> consumes_within(f, i),
    ensures
        many_rel(f, min as nat, opt_nat(max), i, seq_state(r.0)),
{
    let mut parser = f;
    let mut cur = i;
    let mut acc: Vec<U> = Vec::new();
    let mut ml = min;
    let mut xl = max;
    proof {
        lemma_rest_of_self(i);
    }
    proof {
        assert forall|r: State<'a, Seq<U>, E>|
            #[trigger] many_rel(f, ml as nat, opt_nat(xl), cur, r) implies many_rel(
            f,
            min as nat,
            opt_nat(max),
            i,
            prepend_all(acc@, r),
        ) by {
            lemma_prepend_all_nil(r);
        }
    }
    loop
        invariant
            parser == f,
            parser_total(f),
            max is None ==> consumes_within(f, i),
            max is None ==> rest_of(cur, i),
            max is None <==> xl is None,
            forall|r: State<'a, Seq<U>, E>|
                #[trigger] many_rel(f, ml as nat, opt_nat(xl), cur, r) ==> many_rel(
                    f,
                    min as nat,
                    opt_nat(max),
                    i,
                    prepend_all(acc@, r),
                ),
        decreases bound_measure(opt_nat(xl)), cur.data@.len(),
    {
        if let Some(0) = xl {
            proof {
                lemma_prepend_all_empty::<U, E>(acc@, cur);
                assert(many_rel(f, ml as nat, opt_nat(xl), cur, State::<'a, Seq<U>, E>::Data(cur, Seq::empty())));
            }
            return ParseResult(State::Data(cur, acc));
        }
        let res = parser(cur);
        let ghost o = res;
        let ParseResult(st) = res;
        match st {
            State::Data(b, v) => {
                proof {
                    if max is None {
                        lemma_rest_of_trans(b, cur, i);
                    }
                    lemma_many_step(f, ml as nat, opt_nat(xl), cur, o, b, v);
                    assert forall|r: State<'a, Seq<U>, E>|
                        #[trigger] many_rel(f, dec_nat(ml as nat), dec_bound(opt_nat(xl)), b, r) implies many_rel(
                        f,
                        min as nat,
                        opt_nat(max),
                        i,
                        prepend_all(acc@.push(v), r),
                    ) by {
                        lemma_prepend_all_push(acc@, v, r);
                    }
                }
                let ghost (ml0, xl0) = (ml, xl);
                acc.push(v);
                cur = b;
                ml = if ml == 0 { 0 } else { ml - 1 };
                xl = match xl {
                    Some(x) => Some(x - 1),
                    None => None,
                };
                assert(ml as nat == dec_nat(ml0 as nat));
                assert(opt_nat(xl) == dec_bound(opt_nat(xl0)));
            },
            State::Error(b, e) => {
                let ghost local = stop_on_error::<U, E>(ml as nat, cur, b, e);
                proof {
                    assert(many_rel(f, ml as nat, opt_nat(xl), cur, local));
                    lemma_prepend_all_empty::<U, E>(acc@, cur);
                }
                if ml == 0 {
                    return ParseResult(State::Data(cur, acc));
                } else {
                    return ParseResult(State::Error(b, e));
                }
            },
            State::Incomplete(_, n) => {
                let ghost local = stop_on_incomplete::<U, E>(ml as nat, cur, n);
                proof {
                    assert(many_rel(f, ml as nat, opt_nat(xl), cur, local));
                    lemma_prepend_all_empty::<U, E>(acc@, cur);
                }
                if ml == 0 && cur.end_of_input {
                    return ParseResult(State::Data(cur, acc));
                } else {
                    return ParseResult(State::Incomplete(cur, n));
                }
            },
        }
    }
}

/// Applies `f` repeatedly from `i`, taking at least `min` and at most `max`
/// items, and throws the values away.
fn run_skip<'a, U, E, F>(i: Input<'a>, min: usize, max: Option<usize>, f: F) -> (r: ParseResult<
    'a,
    (),
    E,
>)
    where F: FnMut(Input<'a>) -> ParseResult<'a, U, E>,
    requires
        parser_total(f),
        max is None ==> consumes_within(f, i),
    ensures
        exists|m: State<'a, Seq<U>, E>|
            #[trigger] many_rel(f, min as nat, opt_nat(max), i, m) && r.0 == unit_state(m),
{
    let mut parser = f;
    let mut cur = i;
    let ghost mut vals: Seq<U> = Seq::empty();
    let mut ml = min;
    let mut xl = max;
    proof {
        lemma_rest_of_self(i);
    }
    proof {
        assert forall|r: State<'a, Seq<U>, E>|
            #[trigger] many_rel(f, ml as nat, opt_nat(xl), cur, r) implies many_rel(
            f,
            min as nat,
            opt_nat(max),
            i,
            prepend_all(vals, r),
        ) by {
            lemma_prepend_all_nil(r);
        }
    }
    loop
        invariant
            parser == f,
            parser_total(f),
            max is None ==> consumes_within(f, i),
            max is None ==> rest_of(cur, i),
            max is None <==> xl is None,
            forall|r: State<'a, Seq<U>, E>|
                #[trigger] many_rel(f, ml as nat, opt_nat(xl), cur, r) ==> many_rel(
                    f,
                    min as nat,
                    opt_nat(max),
                    i,
                    prepend_all(vals, r),
                ),
        decreases bound_measure(opt_nat(xl)), cur.data@.len(),
    {
        if let Some(0) = xl {
            proof {
                let local = State::<'a, Seq<U>, E>::Data(cur, Seq::empty());
                lemma_prepend_all_empty::<U, E>(vals, cur);
                assert(many_rel(f, ml as nat, opt_nat(xl), cur, local));
                assert(many_rel(f, min as nat, opt_nat(max), i, prepend_all(vals, local)));
            }
            return ParseResult(State::Data(cur, ()));
        }
        let res = parser(cur);
        let ghost o = res;
        let ParseResult(st) = res;
        match st {
            State::Data(b, v) => {
                proof {
                    if max is None {
                        lemma_rest_of_trans(b, cur, i);
                    }
                    lemma_many_step(f, ml as nat, opt_nat(xl), cur, o, b, v);
                    assert forall|r: State<'a, Seq<U>, E>|
                        #[trigger] many_rel(f, dec_nat(ml as nat), dec_bound(opt_nat(xl)), b, r) implies many_rel(
                        f,
                        min as nat,
                        opt_nat(max),
                        i,
                        prepend_all(vals.push(v), r),
                    ) by {
                        lemma_prepend_all_push(vals, v, r);
                    }
                    vals = vals.push(v);
                }
                let ghost (ml0, xl0) = (ml, xl);
                cur = b;
                ml = if ml == 0 { 0 } else { ml - 1 };
                xl = match xl {
                    Some(x) => Some(x - 1),
                    None => None,
                };
                assert(ml as nat == dec_nat(ml0 as nat));
                assert(opt_nat(xl) == dec_bound(opt_nat(xl0)));
            },
            State::Error(b, e) => {
                let ghost local = stop_on_error::<U, E>(ml as nat, cur, b, e);
                proof {
                    assert(many_rel(f, ml as nat, opt_nat(xl), cur, local));
                    assert(many_rel(f, min as nat, opt_nat(max), i, prepend_all(vals, local)));
                }
                if ml == 0 {
                    return ParseResult(State::Data(cur, ()));
                } else {
                    return ParseResult(State::Error(b, e));
                }
            },
            State::Incomplete(_, n) => {
                let ghost local = stop_on_incomplete::<U, E>(ml as nat, cur, n);
                proof {
                    assert(many_rel(f, ml as nat, opt_nat(xl), cur, local));
                    assert(many_rel(f, min as nat, opt_nat(max), i, prepend_all(vals, local)));
                }
                if ml == 0 && cur.end_of_input {
                    return ParseResult(State::Data(cur, ()));
                } else {
                    return ParseResult(State::Incomplete(cur, n));
                }
            },
        }
    }
}

// ---------------------------------------------------------------------------
// many_till
// ---------------------------------------------------------------------------

/// `ee` is a value that `E::from` may return for `e`.
pub open spec fn converted<E, N>(e: N, ee: E) -> bool where E: From<N> {
    call_ensures(<E as From<N>>::from, (e,), ee)
}

/// `E::from` has at most one result for each argument.
pub open spec fn conversion_deterministic<E, N>() -> bool where E: From<N> {
    forall|e: N, a: E, b: E|
        #[trigger] call_ensures(<E as From<N>>::from, (e,), a) && #[trigger] call_ensures(
            <E as From<N>>::from,
            (e,),
            b,
        ) ==> a == b
}

/// `r` is an outcome of applying `p` repeatedly to `i` until `end` succeeds,
/// with at least `min` and at most `max` items of `p` still to be taken.
///
/// Once the minimum is met, `end` is tried first: its success ends the
/// repetition after the part it matched, its incompleteness makes the whole
/// incomplete, and its failure is passed on (converted by `From`) when the
/// upper bound is used up; otherwise one more item is parsed
/// (`till_item_rel`).
pub open spec fn till_rel<'a, U, E, V, N, P, F>(
    p: P,
    end: F,
    min: nat,
    max: Option<nat>,
    i: Input<'a>,
    r: State<'a, Seq<U>, E>,
) -> bool
    where
        E: From<N>,
        P: FnMut(Input<'a>) -> ParseResult<'a, U, E>,
        F: FnMut(Input<'a>) -> ParseResult<'a, V, N>,
    decreases bound_measure(max), i.data@.len(), 3nat,
{
    if min == 0 {
        exists|eo: ParseResult<'a, V, N>|
            #[trigger] call_ensures(end, (i,), eo) && till_end_step(p, end, min, max, i, eo, r)
    } else {
        till_item_rel(p, end, min, max, i, r)
    }
}

/// The call of `end` on `i` returned `eo`, and `r` is what the repetition
/// makes of it.
pub open spec fn till_end_step<'a, U, E, V, N, P, F>(
    p: P,
    end: F,
    min: nat,
    max: Option<nat>,
    i: Input<'a>,
    eo: ParseResult<'a, V, N>,
    r: State<'a, Seq<U>, E>,
) -> bool
    where
        E: From<N>,
        P: FnMut(Input<'a>) -> ParseResult<'a, U, E>,
        F: FnMut(Input<'a>) -> ParseResult<'a, V, N>,
    decreases bound_measure(max), i.data@.len(), 2nat,
{
    match eo.0 {
        State::Data(b, _) => r == State::<'a, Seq<U>, E>::Data(b, Seq::empty()),
        State::Incomplete(_, n) => r == State::<'a, Seq<U>, E>::Incomplete(i, n),
        State::Error(b, e) => if max == Some(0nat) {
            r matches State::Error(rb, re) && rb == b && converted::<E, N>(e, re)
        } else {
            till_item_rel(p, end, min, max, i, r)
        },
    }
}

/// One item of `many_till`: `p` is called once on `i`.
pub open spec fn till_item_rel<'a, U, E, V, N, P, F>(
    p: P,
    end: F,
    min: nat,
    max: Option<nat>,
    i: Input<'a>,
    r: State<'a, Seq<U>, E>,
) -> bool
    where
        E: From<N>,
        P: FnMut(Input<'a>) -> ParseResult<'a, U, E>,
        F: FnMut(Input<'a>) -> ParseResult<'a, V, N>,
    decreases bound_measure(max), i.data@.len(), 1nat,
{
    exists|o: ParseResult<'a, U, E>|
        #[trigger] call_ensures(p, (i,), o) && till_item_step(p, end, min, max, i, o, r)
}

/// The call of `p` on `i` returned `o`: a success adds its value in front of
/// the items of the remaining repetition, a failure or an incompleteness is
/// passed on.
pub open spec fn till_item_step<'a, U, E, V, N, P, F>(
    p: P,
    end: F,
    min: nat,
    max: Option<nat>,
    i: Input<'a>,
    o: ParseResult<'a, U, E>,
    r: State<'a, Seq<U>, E>,
) -> bool
    where
        E: From<N>,
        P: FnMut(Input<'a>) -> ParseResult<'a, U, E>,
        F: FnMut(Input<'a>) -> ParseResult<'a, V, N>,
    decreases bound_measure(max), i.data@.len(), 0nat,
{
    match o.0 {
        State::Data(b, v) => if may_continue(max, i, b) {
            &&& r == prepend(v, behead(r))
            &&& till_rel(p, end, dec_nat(min), dec_bound(max), b, behead(r))
        } else {
            false
        },
        State::Error(b, e) => r == State::<'a, Seq<U>, E>::Error(b, e),
        State::Incomplete(_, n) => r == State::<'a, Seq<U>, E>::Incomplete(i, n),
    }
}

/// With `end` failing at `i` whenever the minimum is met there and the upper
/// bound is not used up, an outcome of one more item is an outcome of the
/// repetition.
proof fn lemma_till_via_item<'a, U, E, V, N, P, F>(
    p: P,
    end: F,
    min: nat,
    max: Option<nat>,
    i: Input<'a>,
    eo: ParseResult<'a, V, N>,
    r: State<'a, Seq<U>, E>,
)
    where
        E: From<N>,
        P: FnMut(Input<'a>) -> ParseResult<'a, U, E>,
        F: FnMut(Input<'a>) -> ParseResult<'a, V, N>,
    requires
        min == 0 ==> call_ensures(end, (i,), eo) && eo.0 is Error && max != Some(0nat),
        till_item_rel(p, end, min, max, i, r),
    ensures
        till_rel(p, end, min, max, i, r),
{
}

/// A success of `p` on `i` extends every outcome of the remaining repetition
/// from `b` to an outcome of one more item from `i`.
proof fn lemma_till_step<'a, U, E, V, N, P, F>(
    p: P,
    end: F,
    min: nat,
    max: Option<nat>,
    i: Input<'a>,
    o: ParseResult<'a, U, E>,
    b: Input<'a>,
    v: U,
)
    where
        E: From<N>,
        P: FnMut(Input<'a>) -> ParseResult<'a, U, E>,
        F: FnMut(Input<'a>) -> ParseResult<'a, V, N>,
    requires
        call_ensures(p, (i,), o),
        o.0 == State::<'a, U, E>::Data(b, v),
        may_continue(max, i, b),
    ensures
        forall|r: State<'a, Seq<U>, E>|
            #[trigger] till_rel(p, end, dec_nat(min), dec_bound(max), b, r) ==> till_item_rel(
                p,
                end,
                min,
                max,
                i,
                prepend(v, r),
            ),
{
    assert forall|r: State<'a, Seq<U>, E>|
        #[trigger] till_rel(p, end, dec_nat(min), dec_bound(max), b, r) implies till_item_rel(
        p,
        end,
        min,
        max,
        i,
        prepend(v, r),
    ) by {
        lemma_behead_prepend(v, r);
    }
}

/// Applies `p` repeatedly from `i` until `end` succeeds, taking at least
/// `min` and at most `max` items of `p`.
fn run_till<'a, U, E, V, N, P, F>(
    i: Input<'a>,
    min: usize,
    max: Option<usize>,
    p: P,
    end: F,
) -> (r: ParseResult<'a, Vec<U>, E>)
    where
        E: From<N>,
        P: FnMut(Input<'a>) -> ParseResult<'a, U, E>,
        F: FnMut(Input<'a>) -> ParseResult<'a, V, N>,
    requires
        parser_total(p),
        parser_total(end),
        bounds_ordered(min as nat, opt_nat(max)),
        max is None ==> consumes_within(p, i),
    ensures
        till_rel(p, end, min as nat, opt_nat(max), i, seq_state(r.0)),
{
    let mut item = p;
    let mut stop = end;
    let mut cur = i;
    let mut acc: Vec<U> = Vec::new();
    let mut ml = min;
    let mut xl = max;
    proof {
        lemma_rest_of_self(i);
    }
    proof {
        assert forall|r: State<'a, Seq<U>, E>|
            #[trigger] till_rel(p, end, ml as nat, opt_nat(xl), cur, r) implies till_rel(
            p,
            end,
            min as nat,
            opt_nat(max),
            i,
            prepend_all(acc@, r),
        ) by {
            lemma_prepend_all_nil(r);
        }
    }
    loop
        invariant
            item == p,
            stop == end,
            parser_total(p),
            parser_total(end),
            bounds_ordered(ml as nat, opt_nat(xl)),
            max is None ==> consumes_within(p, i),
            max is None ==> rest_of(cur, i),
            max is None <==> xl is None,
            forall|r: State<'a, Seq<U>, E>|
                #[trigger] till_rel(p, end, ml as nat, opt_nat(xl), cur, r) ==> till_rel(
                    p,
                    end,
                    min as nat,
                    opt_nat(max),
                    i,
                    prepend_all(acc@, r),
                ),
        decreases bound_measure(opt_nat(xl)), cur.data@.len(),
    {
        let ghost mut eo: ParseResult<'a, V, N> = arbitrary();
        if ml == 0 {
            let eres = stop(cur);
            proof {
                eo = eres;
            }
            let ParseResult(es) = eres;
            match es {
                State::Data(b, _) => {
                    proof {
                        let local = State::<'a, Seq<U>, E>::Data(b, Seq::empty());
                        assert(till_rel(p, end, ml as nat, opt_nat(xl), cur, local));
                        lemma_prepend_all_empty::<U, E>(acc@, b);
                    }
                    return ParseResult(State::Data(b, acc));
                },
                State::Incomplete(_, n) => {
                    proof {
                        let local = State::<'a, Seq<U>, E>::Incomplete(cur, n);
                        assert(till_rel(p, end, ml as nat, opt_nat(xl), cur, local));
                    }
                    return ParseResult(State::Incomplete(cur, n));
                },
                State::Error(b, e) => {
                    if let Some(0) = xl {
                        let ee = E::from(e);
                        proof {
                            let local = State::<'a, Seq<U>, E>::Error(b, ee);
                            assert(till_rel(p, end, ml as nat, opt_nat(xl), cur, local));
                        }
                        return ParseResult(State::Error(b, ee));
                    }
                },
            }
        }
        let res = item(cur);
        let ghost o = res;
        let ParseResult(st) = res;
        match st {
            State::Data(b, v) => {
                proof {
                    if max is None {
                        lemma_rest_of_trans(b, cur, i);
                    }
                    lemma_dec_ordered(ml as nat, opt_nat(xl));
                    lemma_till_step(p, end, ml as nat, opt_nat(xl), cur, o, b, v);
                    assert forall|r: State<'a, Seq<U>, E>|
                        #[trigger] till_rel(p, end, dec_nat(ml as nat), dec_bound(opt_nat(xl)), b, r) implies till_rel(
                        p,
                        end,
                        min as nat,
                        opt_nat(max),
                        i,
                        prepend_all(acc@.push(v), r),
                    ) by {
                        lemma_till_via_item(p, end, ml as nat, opt_nat(xl), cur, eo, prepend(v, r));
                        lemma_prepend_all_push(acc@, v, r);
                    }
                }
                let ghost (ml0, xl0) = (ml, xl);
                acc.push(v);
                cur = b;
                ml = if ml == 0 { 0 } else { ml - 1 };
                xl = match xl {
                    Some(x) => Some(x - 1),
                    None => None,
                };
                assert(ml as nat == dec_nat(ml0 as nat));
                assert(opt_nat(xl) == dec_bound(opt_nat(xl0)));
            },
            State::Error(b, e) => {
                proof {
                    let local = State::<'a, Seq<U>, E>::Error(b, e);
                    assert(till_item_rel(p, end, ml as nat, opt_nat(xl), cur, local));
                    lemma_till_via_item(p, end, ml as nat, opt_nat(xl), cur, eo, local);
                }
                return ParseResult(State::Error(b, e));
            },
            State::Incomplete(_, n) => {
                proof {
                    let local = State::<'a, Seq<U>, E>::Incomplete(cur, n);
                    assert(till_item_rel(p, end, ml as nat, opt_nat(xl), cur, local));
                    lemma_till_via_item(p, end, ml as nat, opt_nat(xl), cur, eo, local);
                }
                return ParseResult(State::Incomplete(cur, n));
            },
        }
    }
}

// ---------------------------------------------------------------------------
// sep_by
// ---------------------------------------------------------------------------

/// `r` is an outcome of applying `p` repeatedly to `i` with `sep` between
/// the items, with at least `min` and at most `max` items still to be taken;
/// `started` tells whether an item was already parsed, so that a separator
/// must come first.
///
/// A separator and the following item form one step: when either fails the
/// repetition ends as for `many` (the failure of the separator converted by
/// `From`), at the position before the separator.
pub open spec fn sep_rel<'a, U, E, V, N, P, F>(
    p: P,
    sep: F,
    min: nat,
    max: Option<nat>,
    started: bool,
    i: Input<'a>,
    r: State<'a, Seq<U>, E>,
) -> bool
    where
        E: From<N>,
        P: FnMut(Input<'a>) -> ParseResult<'a, U, E>,
        F: FnMut(Input<'a>) -> ParseResult<'a, V, N>,
    decreases bound_measure(max), i.data@.len(), 3nat,
{
    if max == Some(0nat) {
        r == State::<'a, Seq<U>, E>::Data(i, Seq::empty())
    } else if !started {
        sep_item_rel(p, sep, min, max, i, i, r)
    } else {
        exists|so: ParseResult<'a, V, N>|
            #[trigger] call_ensures(sep, (i,), so) && sep_sep_step(p, sep, min, max, i, so, r)
    }
}

/// The call of `sep` on `i` returned `so`, and `r` is what the repetition
/// makes of it.
pub open spec fn sep_sep_step<'a, U, E, V, N, P, F>(
    p: P,
    sep: F,
    min: nat,
    max: Option<nat>,
    i: Input<'a>,
    so: ParseResult<'a, V, N>,
    r: State<'a, Seq<U>, E>,
) -> bool
    where
        E: From<N>,
        P: FnMut(Input<'a>) -> ParseResult<'a, U, E>,
        F: FnMut(Input<'a>) -> ParseResult<'a, V, N>,
    decreases bound_measure(max), i.data@.len(), 2nat,
{
    match so.0 {
        State::Data(at, _) => sep_item_rel(p, sep, min, max, i, at, r),
        State::Error(b, e) => if min == 0 {
            r == State::<'a, Seq<U>, E>::Data(i, Seq::empty())
        } else {
            r matches State::Error(rb, re) && rb == b && converted::<E, N>(e, re)
        },
        State::Incomplete(_, n) => r == stop_on_incomplete::<U, E>(min, i, n),
    }
}

/// The item of a `sep_by` step: `p` is called on `at`, the input after the
/// separator (or `i` itself for the first item), while the repetition stands
/// at `i`.
pub open spec fn sep_item_rel<'a, U, E, V, N, P, F>(
    p: P,
    sep: F,
    min: nat,
    max: Option<nat>,
    i: Input<'a>,
    at: Input<'a>,
    r: State<'a, Seq<U>, E>,
) -> bool
    where
        E: From<N>,
        P: FnMut(Input<'a>) -> ParseResult<'a, U, E>,
        F: FnMut(Input<'a>) -> ParseResult<'a, V, N>,
    decreases bound_measure(max), i.data@.len(), 1nat,
{
    exists|o: ParseResult<'a, U, E>|
        #[trigger] call_ensures(p, (at,), o) && sep_item_step(p, sep, min, max, i, o, r)
}

/// The call of `p` returned `o` while the repetition stands at `i`: a
/// success adds its value in front of the items of the remaining repetition,
/// a failure ends the repetition as for `many`.
pub open spec fn sep_item_step<'a, U, E, V, N, P, F>(
    p: P,
    sep: F,
    min: nat,
    max: Option<nat>,
    i: Input<'a>,
    o: ParseResult<'a, U, E>,
    r: State<'a, Seq<U>, E>,
) -> bool
    where
        E: From<N>,
        P: FnMut(Input<'a>) -> ParseResult<'a, U, E>,
        F: FnMut(Input<'a>) -> ParseResult<'a, V, N>,
    decreases bound_measure(max), i.data@.len(), 0nat,
{
    match o.0 {
        State::Data(b, v) => if may_continue(max, i, b) {
            &&& r == prepend(v, behead(r))
            &&& sep_rel(p, sep, dec_nat(min), dec_bound(max), true, b, behead(r))
        } else {
            false
        },
        State::Error(b, e) => r == stop_on_error::<U, E>(min, i, b, e),
        State::Incomplete(_, n) => r == stop_on_incomplete::<U, E>(min, i, n),
    }
}

/// An outcome of the item after a successful separator (or of the first
/// item) is an outcome of the repetition.
proof fn lemma_sep_via_item<'a, U, E, V, N, P, F>(
    p: P,
    sep: F,
    min: nat,
    max: Option<nat>,
    started: bool,
    i: Input<'a>,
    at: Input<'a>,
    so: ParseResult<'a, V, N>,
    r: State<'a, Seq<U>, E>,
)
    where
        E: From<N>,
        P: FnMut(Input<'a>) -> ParseResult<'a, U, E>,
        F: FnMut(Input<'a>) -> ParseResult<'a, V, N>,
    requires
        max != Some(0nat),
        started ==> (call_ensures(sep, (i,), so) && (so.0 matches State::Data(b1, _) && b1 == at)),
        !started ==> at == i,
        sep_item_rel(p, sep, min, max, i, at, r),
    ensures
        sep_rel(p, sep, min, max, started, i, r),
{
}

/// A success of `p` on `at` extends every outcome of the remaining
/// repetition from `b` to an outcome of the item.
proof fn lemma_sep_step<'a, U, E, V, N, P, F>(
    p: P,
    sep: F,
    min: nat,
    max: Option<nat>,
    i: Input<'a>,
    at: Input<'a>,
    o: ParseResult<'a, U, E>,
    b: Input<'a>,
    v: U,
)
    where
        E: From<N>,
        P: FnMut(Input<'a>) -> ParseResult<'a, U, E>,
        F: FnMut(Input<'a>) -> ParseResult<'a, V, N>,
    requires
        call_ensures(p, (at,), o),
        o.0 == State::<'a, U, E>::Data(b, v),
        may_continue(max, i, b),
    ensures
        forall|r: State<'a, Seq<U>, E>|
            #[trigger] sep_rel(p, sep, dec_nat(min), dec_bound(max), true, b, r) ==> sep_item_rel(
                p,
                sep,
                min,
                max,
                i,
                at,
                prepend(v, r),
            ),
{
    assert forall|r: State<'a, Seq<U>, E>|
        #[trigger] sep_rel(p, sep, dec_nat(min), dec_bound(max), true, b, r) implies sep_item_rel(
        p,
        sep,
        min,
        max,
        i,
        at,
        prepend(v, r),
    ) by {
        lemma_behead_prepend(v, r);
    }
}

/// Applies `p` repeatedly from `i` with `sep` between the items, taking at
/// least `min` and at most `max` items.
fn run_sep<'a, U, E, V, N, P, F>(
    i: Input<'a>,
    min: usize,
    max: Option<usize>,
    p: P,
    sep: F,
) -> (r: ParseResult<'a, Vec<U>, E>)
    where
        E: From<N>,
        P: FnMut(Input<'a>) -> ParseResult<'a, U, E>,
        F: FnMut(Input<'a>) -> ParseResult<'a, V, N>,
    requires
        parser_total(p),
        parser_total(sep),
        max is None ==> consumes_within(p, i) && never_grows_within(sep, i),
    ensures
        sep_rel(p, sep, min as nat, opt_nat(max), false, i, seq_state(r.0)),
{
    let mut item = p;
    let mut separator = sep;
    let mut cur = i;
    let mut acc: Vec<U> = Vec::new();
    let mut ml = min;
    let mut xl = max;
    proof {
        lemma_rest_of_self(i);
    }
    let mut started = false;
    proof {
        assert forall|r: State<'a, Seq<U>, E>|
            #[trigger] sep_rel(p, sep, ml as nat, opt_nat(xl), started, cur, r) implies sep_rel(
            p,
            sep,
            min as nat,
            opt_nat(max),
            false,
            i,
            prepend_all(acc@, r),
        ) by {
            lemma_prepend_all_nil(r);
        }
    }
    loop
        invariant
            item == p,
            separator == sep,
            parser_total(p),
            parser_total(sep),
            max is None ==> consumes_within(p, i) && never_grows_within(sep, i),
            max is None ==> rest_of(cur, i),
            max is None <==> xl is None,
            forall|r: State<'a, Seq<U>, E>|
                #[trigger] sep_rel(p, sep, ml as nat, opt_nat(xl), started, cur, r) ==> sep_rel(
                    p,
                    sep,
                    min as nat,
                    opt_nat(max),
                    false,
                    i,
                    prepend_all(acc@, r),
                ),
        decreases bound_measure(opt_nat(xl)), cur.data@.len(),
    {
        if let Some(0) = xl {
            proof {
                let local = State::<'a, Seq<U>, E>::Data(cur, Seq::empty());
                assert(sep_rel(p, sep, ml as nat, opt_nat(xl), started, cur, local));
                lemma_prepend_all_empty::<U, E>(acc@, cur);
            }
            return ParseResult(State::Data(cur, acc));
        }
        let ghost mut so: ParseResult<'a, V, N> = arbitrary();
        let at = if started {
            let sres = separator(cur);
            proof {
                so = sres;
            }
            let ParseResult(ss) = sres;
            match ss {
                State::Data(b1, _) => b1,
                State::Error(b, e) => {
                    if ml == 0 {
                        proof {
                            let local = State::<'a, Seq<U>, E>::Data(cur, Seq::empty());
                            assert(sep_rel(p, sep, ml as nat, opt_nat(xl), started, cur, local));
                            lemma_prepend_all_empty::<U, E>(acc@, cur);
                        }
                        return ParseResult(State::Data(cur, acc));
                    } else {
                        let ee = E::from(e);
                        proof {
                            let local = State::<'a, Seq<U>, E>::Error(b, ee);
                            assert(sep_rel(p, sep, ml as nat, opt_nat(xl), started, cur, local));
                        }
                        return ParseResult(State::Error(b, ee));
                    }
                },
                State::Incomplete(_, n) => {
                    proof {
                        let local = stop_on_incomplete::<U, E>(ml as nat, cur, n);
                        assert(sep_rel(p, sep, ml as nat, opt_nat(xl), started, cur, local));
                        lemma_prepend_all_empty::<U, E>(acc@, cur);
                    }
                    if ml == 0 && cur.end_of_input {
                        return ParseResult(State::Data(cur, acc));
                    } else {
                        return ParseResult(State::Incomplete(cur, n));
                    }
                },
            }
        } else {
            cur
        };
        let res = item(at);
        let ghost o = res;
        let ParseResult(st) = res;
        match st {
            State::Data(b, v) => {
                proof {
                    if max is None {
                        if started {
                            lemma_rest_of_trans(at, cur, i);
                        }
                        lemma_rest_of_trans(b, at, i);
                    }
                    lemma_sep_step(p, sep, ml as nat, opt_nat(xl), cur, at, o, b, v);
                    assert forall|r: State<'a, Seq<U>, E>|
                        #[trigger] sep_rel(p, sep, dec_nat(ml as nat), dec_bound(opt_nat(xl)), true, b, r) implies sep_rel(
                        p,
                        sep,
                        min as nat,
                        opt_nat(max),
                        false,
                        i,
                        prepend_all(acc@.push(v), r),
                    ) by {
                        lemma_sep_via_item(p, sep, ml as nat, opt_nat(xl), started, cur, at, so, prepend(v, r));
                        lemma_prepend_all_push(acc@, v, r);
                    }
                }
                let ghost (ml0, xl0) = (ml, xl);
                acc.push(v);
                cur = b;
                started = true;
                ml = if ml == 0 { 0 } else { ml - 1 };
                xl = match xl {
                    Some(x) => Some(x - 1),
                    None => None,
                };
                assert(ml as nat == dec_nat(ml0 as nat));
                assert(opt_nat(xl) == dec_bound(opt_nat(xl0)));
            },
            State::Error(b, e) => {
                proof {
                    let local = stop_on_error::<U, E>(ml as nat, cur, b, e);
                    assert(sep_item_rel(p, sep, ml as nat, opt_nat(xl), cur, at, local));
                    lemma_sep_via_item(p, sep, ml as nat, opt_nat(xl), started, cur, at, so, local);
                    lemma_prepend_all_empty::<U, E>(acc@, cur);
                }
                if ml == 0 {
                    return ParseResult(State::Data(cur, acc));
                } else {
                    return ParseResult(State::Error(b, e));
                }
            },
            State::Incomplete(_, n) => {
                proof {
                    let local = stop_on_incomplete::<U, E>(ml as nat, cur, n);
                    assert(sep_item_rel(p, sep, ml as nat, opt_nat(xl), cur, at, local));
                    lemma_sep_via_item(p, sep, ml as nat, opt_nat(xl), started, cur, at, so, local);
                    lemma_prepend_all_empty::<U, E>(acc@, cur);
                }
                if ml == 0 && cur.end_of_input {
                    return ParseResult(State::Data(cur, acc));
                } else {
                    return ParseResult(State::Incomplete(cur, n));
                }
            },
        }
    }
}

// ---------------------------------------------------------------------------
// Ranges
// ---------------------------------------------------------------------------

/// std's `RangeFrom` (`start..`), made known to Verus with its one public
/// field `start`, as vstd does for `Range`.
#[verifier::external_type_specification]
#[verifier::reject_recursive_types(Idx)]
pub struct ExRangeFrom<Idx>(RangeFrom<Idx>);

/// std's `RangeTo` (`..end`), made known to Verus with its one public field
/// `end`, as vstd does for `Range`.
#[verifier::external_type_specification]
#[verifier::reject_recursive_types(Idx)]
pub struct ExRangeTo<Idx>(RangeTo<Idx>);

/// std's `RangeFull` (`..`), a unit struct without fields.
#[verifier::external_type_specification]
pub struct ExRangeFull(RangeFull);

/// The most items a half-open range `..end` allows: `end - 1`, and none for
/// an empty range.
fn last_below(end: usize) -> (m: usize)
    ensures
        m == if end == 0 {
            0
        } else {
            end - 1
        },
{
    if end == 0 {
        0
    } else {
        end - 1
    }
}

/// Trait for applying a parser multiple times based on a range.
///
/// A range gives the least (`lower_bound`) and the most (`upper_bound`,
/// `None` for no limit) number of items; the methods are specified over
/// these two numbers alone.
pub trait BoundedRange: Sized {
    /// The least number of items.
    spec fn lower_bound(&self) -> nat;

    /// The most number of items, `None` when there is no limit.
    spec fn upper_bound(&self) -> Option<nat>;

    /// The end of the range is not below its start.
    spec fn is_ordered(&self) -> bool;

    /// The two bounds as machine integers.
    fn bounds(&self) -> (b: (usize, Option<usize>))
        ensures
            b.0 as nat == self.lower_bound(),
            opt_nat(b.1) == self.upper_bound(),
    ;

    /// Applies the parser `f` until it fails or the upper bound is reached,
    /// collecting the values; propagates the failure when the minimum has not
    /// been met.  Ending on an incomplete parse counts as success only at the
    /// end of the input.  The range must admit some number of items (its
    /// lower bound not above its upper one): on an empty range such as `n..n`
    /// with `n > 0` no outcome would lie within it.
    fn parse_many<'a, U, E, F>(self, i: Input<'a>, f: F) -> (r: ParseResult<'a, Vec<U>, E>)
        where F: FnMut(Input<'a>) -> ParseResult<'a, U, E>,
        requires
            bounds_ordered(self.lower_bound(), self.upper_bound()),
            parser_total(f),
            self.upper_bound() is None ==> consumes_within(f, i),
        ensures
            many_rel(f, self.lower_bound(), self.upper_bound(), i, seq_state(r.0)),
    ;

    /// As `parse_many`, throwing the values away.  Any range whose end is not
    /// below its start is accepted: on an empty range such as `n..n` the
    /// items are skipped until the upper bound `n - 1` is used up, and the
    /// repetition ends there.
    fn skip_many<'a, U, E, F>(self, i: Input<'a>, f: F) -> (r: ParseResult<'a, (), E>)
        where F: FnMut(Input<'a>) -> ParseResult<'a, U, E>,
        requires
            self.is_ordered(),
            parser_total(f),
            self.upper_bound() is None ==> consumes_within(f, i),
        ensures
            exists|m: State<'a, Seq<U>, E>|
                #[trigger] many_rel(f, self.lower_bound(), self.upper_bound(), i, m) && r.0
                    == unit_state(m),
    ;

    /// Applies the parser `p` until the parser `end` succeeds, collecting the
    /// values of `p`; `end` is tried only once the minimum has been met, and
    /// its failure is passed on once the upper bound is used up.  As for
    /// `parse_many`, the range must admit some number of items.
    fn many_till<'a, U, E, V, N, P, F>(self, i: Input<'a>, p: P, end: F) -> (r: ParseResult<
        'a,
        Vec<U>,
        E,
    >)
        where
            E: From<N>,
            P: FnMut(Input<'a>) -> ParseResult<'a, U, E>,
            F: FnMut(Input<'a>) -> ParseResult<'a, V, N>,
        requires
            bounds_ordered(self.lower_bound(), self.upper_bound()),
            parser_total(p),
            parser_total(end),
            self.upper_bound() is None ==> consumes_within(p, i),
        ensures
            till_rel(p, end, self.lower_bound(), self.upper_bound(), i, seq_state(r.0)),
    ;
}

impl BoundedRange for Range<usize> {
    /// `start..end` takes at least `start` items.
    open spec fn lower_bound(&self) -> nat {
        self.start as nat
    }

    /// `start..end` takes at most `end - 1` items.
    open spec fn upper_bound(&self) -> Option<nat> {
        Some(
            if self.end == 0 {
                0
            } else {
                (self.end - 1) as nat
            },
        )
    }

    open spec fn is_ordered(&self) -> bool {
        self.start <= self.end
    }

    fn bounds(&self) -> (b: (usize, Option<usize>)) {
        (self.start, Some(last_below(self.end)))
    }

    fn parse_many<'a, U, E, F>(self, i: Input<'a>, f: F) -> (r: ParseResult<'a, Vec<U>, E>)
        where F: FnMut(Input<'a>) -> ParseResult<'a, U, E>,
    {
        let (lo, hi) = self.bounds();
        run_many(i, lo, hi, f)
    }

    fn skip_many<'a, U, E, F>(self, i: Input<'a>, f: F) -> (r: ParseResult<'a, (), E>)
        where F: FnMut(Input<'a>) -> ParseResult<'a, U, E>,
    {
        let (lo, hi) = self.bounds();
        let r = run_skip(i, lo, hi, f);
        proof {
            let m = choose|m: State<'a, Seq<U>, E>|
                many_rel(f, lo as nat, opt_nat(hi), i, m) && r.0 == unit_state(m);
            assert(many_rel(f, self.lower_bound(), self.upper_bound(), i, m));
        }
        r
    }

    fn many_till<'a, U, E, V, N, P, F>(self, i: Input<'a>, p: P, end: F) -> (r: ParseResult<
        'a,
        Vec<U>,
        E,
    >)
        where
            E: From<N>,
            P: FnMut(Input<'a>) -> ParseResult<'a, U, E>,
            F: FnMut(Input<'a>) -> ParseResult<'a, V, N>,
    {
        let (lo, hi) = self.bounds();
        run_till(i, lo, hi, p, end)
    }
}

impl BoundedRange for RangeFrom<usize> {
    /// `start..` takes at least `start` items.
    open spec fn lower_bound(&self) -> nat {
        self.start as nat
    }

    /// `start..` has no upper limit.
    open spec fn upper_bound(&self) -> Option<nat> {
        None
    }

    open spec fn is_ordered(&self) -> bool {
        true
    }

    fn bounds(&self) -> (b: (usize, Option<usize>)) {
        (self.start, None)
    }

    fn parse_many<'a, U, E, F>(self, i: Input<'a>, f: F) -> (r: ParseResult<'a, Vec<U>, E>)
        where F: FnMut(Input<'a>) -> ParseResult<'a, U, E>,
    {
        let (lo, hi) = self.bounds();
        run_many(i, lo, hi, f)
    }

    fn skip_many<'a, U, E, F>(self, i: Input<'a>, f: F) -> (r: ParseResult<'a, (), E>)
        where F: FnMut(Input<'a>) -> ParseResult<'a, U, E>,
    {
        let (lo, hi) = self.bounds();
        let r = run_skip(i, lo, hi, f);
        proof {
            let m = choose|m: State<'a, Seq<U>, E>|
                many_rel(f, lo as nat, opt_nat(hi), i, m) && r.0 == unit_state(m);
            assert(many_rel(f, self.lower_bound(), self.upper_bound(), i, m));
        }
        r
    }

    fn many_till<'a, U, E, V, N, P, F>(self, i: Input<'a>, p: P, end: F) -> (r: ParseResult<
        'a,
        Vec<U>,
        E,
    >)
        where
            E: From<N>,
            P: FnMut(Input<'a>) -> ParseResult<'a, U, E>,
            F: FnMut(Input<'a>) -> ParseResult<'a, V, N>,
    {
        let (lo, hi) = self.bounds();
        run_till(i, lo, hi, p, end)
    }
}

impl BoundedRange for RangeFull {
    /// `..` takes any number of items.
    open spec fn lower_bound(&self) -> nat {
        0
    }

    open spec fn upper_bound(&self) -> Option<nat> {
        None
    }

    open spec fn is_ordered(&self) -> bool {
        true
    }

    fn bounds(&self) -> (b: (usize, Option<usize>)) {
        (0, None)
    }

    fn parse_many<'a, U, E, F>(self, i: Input<'a>, f: F) -> (r: ParseResult<'a, Vec<U>, E>)
        where F: FnMut(Input<'a>) -> ParseResult<'a, U, E>,
    {
        let (lo, hi) = self.bounds();
        run_many(i, lo, hi, f)
    }

    fn skip_many<'a, U, E, F>(self, i: Input<'a>, f: F) -> (r: ParseResult<'a, (), E>)
        where F: FnMut(Input<'a>) -> ParseResult<'a, U, E>,
    {
        let (lo, hi) = self.bounds();
        let r = run_skip(i, lo, hi, f);
        proof {
            let m = choose|m: State<'a, Seq<U>, E>|
                many_rel(f, lo as nat, opt_nat(hi), i, m) && r.0 == unit_state(m);
            assert(many_rel(f, self.lower_bound(), self.upper_bound(), i, m));
        }
        r
    }

    fn many_till<'a, U, E, V, N, P, F>(self, i: Input<'a>, p: P, end: F) -> (r: ParseResult<
        'a,
        Vec<U>,
        E,
    >)
        where
            E: From<N>,
            P: FnMut(Input<'a>) -> ParseResult<'a, U, E>,
            F: FnMut(Input<'a>) -> ParseResult<'a, V, N>,
    {
        let (lo, hi) = self.bounds();
        run_till(i, lo, hi, p, end)
    }
}

impl BoundedRange for RangeTo<usize> {
    /// `..end` takes no item at least.
    open spec fn lower_bound(&self) -> nat {
        0
    }

    /// `..end` takes at most `end - 1` items.
    open spec fn upper_bound(&self) -> Option<nat> {
        Some(
            if self.end == 0 {
                0
            } else {
                (self.end - 1) as nat
            },
        )
    }

    open spec fn is_ordered(&self) -> bool {
        true
    }

    fn bounds(&self) -> (b: (usize, Option<usize>)) {
        (0, Some(last_below(self.end)))
    }

    fn parse_many<'a, U, E, F>(self, i: Input<'a>, f: F) -> (r: ParseResult<'a, Vec<U>, E>)
        where F: FnMut(Input<'a>) -> ParseResult<'a, U, E>,
    {
        let (lo, hi) = self.bounds();
        run_many(i, lo, hi, f)
    }

    fn skip_many<'a, U, E, F>(self, i: Input<'a>, f: F) -> (r: ParseResult<'a, (), E>)
        where F: FnMut(Input<'a>) -> ParseResult<'a, U, E>,
    {
        let (lo, hi) = self.bounds();
        let r = run_skip(i, lo, hi, f);
        proof {
            let m = choose|m: State<'a, Seq<U>, E>|
                many_rel(f, lo as nat, opt_nat(hi), i, m) && r.0 == unit_state(m);
            assert(many_rel(f, self.lower_bound(), self.upper_bound(), i, m));
        }
        r
    }

    fn many_till<'a, U, E, V, N, P, F>(self, i: Input<'a>, p: P, end: F) -> (r: ParseResult<
        'a,
        Vec<U>,
        E,
    >)
        where
            E: From<N>,
            P: FnMut(Input<'a>) -> ParseResult<'a, U, E>,
            F: FnMut(Input<'a>) -> ParseResult<'a, V, N>,
    {
        let (lo, hi) = self.bounds();
        run_till(i, lo, hi, p, end)
    }
}

impl BoundedRange for usize {
    /// `n` takes exactly `n` items.
    open spec fn lower_bound(&self) -> nat {
        *self as nat
    }

    open spec fn upper_bound(&self) -> Option<nat> {
        Some(*self as nat)
    }

    open spec fn is_ordered(&self) -> bool {
        true
    }

    fn bounds(&self) -> (b: (usize, Option<usize>)) {
        (*self, Some(*self))
    }

    fn parse_many<'a, U, E, F>(self, i: Input<'a>, f: F) -> (r: ParseResult<'a, Vec<U>, E>)
        where F: FnMut(Input<'a>) -> ParseResult<'a, U, E>,
    {
        let (lo, hi) = self.bounds();
        run_many(i, lo, hi, f)
    }

    fn skip_many<'a, U, E, F>(self, i: Input<'a>, f: F) -> (r: ParseResult<'a, (), E>)
        where F: FnMut(Input<'a>) -> ParseResult<'a, U, E>,
    {
        let (lo, hi) = self.bounds();
        let r = run_skip(i, lo, hi, f);
        proof {
            let m = choose|m: State<'a, Seq<U>, E>|
                many_rel(f, lo as nat, opt_nat(hi), i, m) && r.0 == unit_state(m);
            assert(many_rel(f, self.lower_bound(), self.upper_bound(), i, m));
        }
        r
    }

    fn many_till<'a, U, E, V, N, P, F>(self, i: Input<'a>, p: P, end: F) -> (r: ParseResult<
        'a,
        Vec<U>,
        E,
    >)
        where
            E: From<N>,
            P: FnMut(Input<'a>) -> ParseResult<'a, U, E>,
            F: FnMut(Input<'a>) -> ParseResult<'a, V, N>,
    {
        let (lo, hi) = self.bounds();
        run_till(i, lo, hi, p, end)
    }
}

// ---------------------------------------------------------------------------
// How many items a repetition yields
// ---------------------------------------------------------------------------

proof fn lemma_prepend_len<'a, U, E>(v: U, r: State<'a, Seq<U>, E>)
    requires
        r == prepend(v, behead(r)),
    ensures
        r matches State::Data(_, vs) ==> (behead(r) matches State::Data(_, ws) && ws.len() + 1
            == vs.len()),
{
}

proof fn lemma_dec_ordered(min: nat, max: Option<nat>)
    requires
        bounds_ordered(min, max),
    ensures
        bounds_ordered(dec_nat(min), dec_bound(max)),
{
}

/// With ordered bounds, a successful repetition of `many` yields a number of
/// items within the bounds.
pub proof fn lemma_many_count<'a, U, E, F>(
    f: F,
    min: nat,
    max: Option<nat>,
    i: Input<'a>,
    r: State<'a, Seq<U>, E>,
)
    where F: FnMut(Input<'a>) -> ParseResult<'a, U, E>,
    requires
        bounds_ordered(min, max),
        many_rel(f, min, max, i, r),
    ensures
        r matches State::Data(_, vs) ==> count_within(vs.len(), min, max),
    decreases bound_measure(max), i.data@.len(),
{
    if max != Some(0nat) {
        let o = choose|o: ParseResult<'a, U, E>| #[trigger] call_ensures(f, (i,), o) && many_step(f, min, max, i, o, r);
        if let State::Data(b, v) = o.0 {
            lemma_dec_ordered(min, max);
            lemma_many_count(f, dec_nat(min), dec_bound(max), b, behead(r));
            lemma_prepend_len(v, r);
        }
    }
}

/// With ordered bounds, a successful repetition of `many_till` yields a
/// number of items within the bounds.
pub proof fn lemma_till_count<'a, U, E, V, N, P, F>(
    p: P,
    end: F,
    min: nat,
    max: Option<nat>,
    i: Input<'a>,
    r: State<'a, Seq<U>, E>,
)
    where
        E: From<N>,
        P: FnMut(Input<'a>) -> ParseResult<'a, U, E>,
        F: FnMut(Input<'a>) -> ParseResult<'a, V, N>,
    requires
        bounds_ordered(min, max),
        till_rel(p, end, min, max, i, r),
    ensures
        r matches State::Data(_, vs) ==> count_within(vs.len(), min, max),
    decreases bound_measure(max), i.data@.len(),
{
    let by_item = if min == 0 {
        let eo = choose|eo: ParseResult<'a, V, N>| #[trigger] call_ensures(end, (i,), eo) && till_end_step(p, end, min, max, i, eo, r);
        eo.0 is Error && max != Some(0nat)
    } else {
        true
    };
    if by_item {
        let o = choose|o: ParseResult<'a, U, E>| #[trigger] call_ensures(p, (i,), o) && till_item_step(p, end, min, max, i, o, r);
        if let State::Data(b, v) = o.0 {
            lemma_dec_ordered(min, max);
            lemma_till_count(p, end, dec_nat(min), dec_bound(max), b, behead(r));
            lemma_prepend_len(v, r);
        }
    }
}

/// With ordered bounds, a successful repetition of `sep_by` yields a number
/// of items within the bounds.
pub proof fn lemma_sep_count<'a, U, E, V, N, P, F>(
    p: P,
    sep: F,
    min: nat,
    max: Option<nat>,
    started: bool,
    i: Input<'a>,
    r: State<'a, Seq<U>, E>,
)
    where
        E: From<N>,
        P: FnMut(Input<'a>) -> ParseResult<'a, U, E>,
        F: FnMut(Input<'a>) -> ParseResult<'a, V, N>,
    requires
        bounds_ordered(min, max),
        sep_rel(p, sep, min, max, started, i, r),
    ensures
        r matches State::Data(_, vs) ==> count_within(vs.len(), min, max),
    decreases bound_measure(max), i.data@.len(),
{
    if max != Some(0nat) {
        let at = if !started {
            i
        } else {
            let so = choose|so: ParseResult<'a, V, N>| #[trigger] call_ensures(sep, (i,), so) && sep_sep_step(p, sep, min, max, i, so, r);
            match so.0 {
                State::Data(at, _) => at,
                _ => {
                    return;
                },
            }
        };
        let o = choose|o: ParseResult<'a, U, E>| #[trigger] call_ensures(p, (at,), o) && sep_item_step(p, sep, min, max, i, o, r);
        if let State::Data(b, v) = o.0 {
            lemma_dec_ordered(min, max);
            lemma_sep_count(p, sep, dec_nat(min), dec_bound(max), true, b, behead(r));
            lemma_prepend_len(v, r);
        }
    }
}

// ---------------------------------------------------------------------------
// The outcome is unique for deterministic parsers
// ---------------------------------------------------------------------------

/// With a deterministic item parser, `many` has exactly one outcome.
pub proof fn lemma_many_unique<'a, U, E, F>(
    f: F,
    min: nat,
    max: Option<nat>,
    i: Input<'a>,
    r1: State<'a, Seq<U>, E>,
    r2: State<'a, Seq<U>, E>,
)
    where F: FnMut(Input<'a>) -> ParseResult<'a, U, E>,
    requires
        deterministic(f),
        many_rel(f, min, max, i, r1),
        many_rel(f, min, max, i, r2),
    ensures
        r1 == r2,
    decreases bound_measure(max), i.data@.len(),
{
    if max != Some(0nat) {
        let o1 = choose|o: ParseResult<'a, U, E>|
            #[trigger] call_ensures(f, (i,), o) && many_step(f, min, max, i, o, r1);
        let o2 = choose|o: ParseResult<'a, U, E>|
            #[trigger] call_ensures(f, (i,), o) && many_step(f, min, max, i, o, r2);
        assert(o1 == o2);
        if let State::Data(b, v) = o1.0 {
            lemma_many_unique(f, dec_nat(min), dec_bound(max), b, behead(r1), behead(r2));
        }
    }
}

/// With deterministic parsers and a specified conversion of errors,
/// `many_till` has exactly one outcome.
pub proof fn lemma_till_unique<'a, U, E, V, N, P, F>(
    p: P,
    end: F,
    min: nat,
    max: Option<nat>,
    i: Input<'a>,
    r1: State<'a, Seq<U>, E>,
    r2: State<'a, Seq<U>, E>,
)
    where
        E: From<N>,
        P: FnMut(Input<'a>) -> ParseResult<'a, U, E>,
        F: FnMut(Input<'a>) -> ParseResult<'a, V, N>,
    requires
        deterministic(p),
        deterministic(end),
        conversion_deterministic::<E, N>(),
        till_rel(p, end, min, max, i, r1),
        till_rel(p, end, min, max, i, r2),
    ensures
        r1 == r2,
    decreases bound_measure(max), i.data@.len(),
{
    let by_item = if min == 0 {
        let eo1 = choose|eo: ParseResult<'a, V, N>|
            #[trigger] call_ensures(end, (i,), eo) && till_end_step(p, end, min, max, i, eo, r1);
        let eo2 = choose|eo: ParseResult<'a, V, N>|
            #[trigger] call_ensures(end, (i,), eo) && till_end_step(p, end, min, max, i, eo, r2);
        assert(eo1 == eo2);
        eo1.0 is Error && max != Some(0nat)
    } else {
        true
    };
    if by_item {
        let o1 = choose|o: ParseResult<'a, U, E>|
            #[trigger] call_ensures(p, (i,), o) && till_item_step(p, end, min, max, i, o, r1);
        let o2 = choose|o: ParseResult<'a, U, E>|
            #[trigger] call_ensures(p, (i,), o) && till_item_step(p, end, min, max, i, o, r2);
        assert(o1 == o2);
        if let State::Data(b, v) = o1.0 {
            lemma_till_unique(p, end, dec_nat(min), dec_bound(max), b, behead(r1), behead(r2));
        }
    }
}

/// With deterministic parsers and a specified conversion of errors, `sep_by`
/// has exactly one outcome.
pub proof fn lemma_sep_unique<'a, U, E, V, N, P, F>(
    p: P,
    sep: F,
    min: nat,
    max: Option<nat>,
    started: bool,
    i: Input<'a>,
    r1: State<'a, Seq<U>, E>,
    r2: State<'a, Seq<U>, E>,
)
    where
        E: From<N>,
        P: FnMut(Input<'a>) -> ParseResult<'a, U, E>,
        F: FnMut(Input<'a>) -> ParseResult<'a, V, N>,
    requires
        deterministic(p),
        deterministic(sep),
        conversion_deterministic::<E, N>(),
        sep_rel(p, sep, min, max, started, i, r1),
        sep_rel(p, sep, min, max, started, i, r2),
    ensures
        r1 == r2,
    decreases bound_measure(max), i.data@.len(),
{
    if max != Some(0nat) {
        let at = if !started {
            i
        } else {
            let so1 = choose|so: ParseResult<'a, V, N>|
                #[trigger] call_ensures(sep, (i,), so) && sep_sep_step(p, sep, min, max, i, so, r1);
            let so2 = choose|so: ParseResult<'a, V, N>|
                #[trigger] call_ensures(sep, (i,), so) && sep_sep_step(p, sep, min, max, i, so, r2);
            assert(so1 == so2);
            match so1.0 {
                State::Data(at, _) => at,
                _ => {
                    return;
                },
            }
        };
        let o1 = choose|o: ParseResult<'a, U, E>|
            #[trigger] call_ensures(p, (at,), o) && sep_item_step(p, sep, min, max, i, o, r1);
        let o2 = choose|o: ParseResult<'a, U, E>|
            #[trigger] call_ensures(p, (at,), o) && sep_item_step(p, sep, min, max, i, o, r2);
        assert(o1 == o2);
        if let State::Data(b, v) = o1.0 {
            lemma_sep_unique(p, sep, dec_nat(min), dec_bound(max), true, b, behead(r1), behead(r2));
        }
    }
}

/// With a deterministic item parser, what `skip_many` returns is what `many`
/// returns with the values dropped.
pub proof fn lemma_skip_many_drops_values<'a, U, E, F>(
    f: F,
    min: nat,
    max: Option<nat>,
    i: Input<'a>,
    collected: State<'a, Seq<U>, E>,
    skipped: State<'a, (), E>,
)
    where F: FnMut(Input<'a>) -> ParseResult<'a, U, E>,
    requires
        deterministic(f),
        many_rel(f, min, max, i, collected),
        exists|m: State<'a, Seq<U>, E>|
            #[trigger] many_rel(f, min, max, i, m) && skipped == unit_state(m),
    ensures
        skipped == unit_state(collected),
{
    let m = choose|m: State<'a, Seq<U>, E>|
        #[trigger] many_rel(f, min, max, i, m) && skipped == unit_state(m);
    lemma_many_unique(f, min, max, i, m, collected);
}

// ---------------------------------------------------------------------------
// Waiting for more input
// ---------------------------------------------------------------------------

/// The parser never fails outright, and its successes keep the end-of-input
/// flag as it was.
pub open spec fn only_succeeds_or_waits<'a, U, E, F>(f: F) -> bool
    where F: FnMut(Input<'a>) -> ParseResult<'a, U, E>,
{
    forall|x: Input<'a>, o: ParseResult<'a, U, E>|
        #[trigger] call_ensures(f, (x,), o) ==> match o.0 {
            State::Data(b, _) => b.end_of_input == x.end_of_input,
            State::Error(_, _) => false,
            State::Incomplete(_, _) => true,
        }
}

/// On input that is not marked as its end, `many` does not end on an
/// incomplete parse: with an item parser that never fails outright, a
/// successful repetition has used up its upper bound.
pub proof fn lemma_many_waits_for_input<'a, U, E, F>(
    f: F,
    min: nat,
    max: Option<nat>,
    i: Input<'a>,
    r: State<'a, Seq<U>, E>,
)
    where F: FnMut(Input<'a>) -> ParseResult<'a, U, E>,
    requires
        only_succeeds_or_waits(f),
        !i.end_of_input,
        many_rel(f, min, max, i, r),
    ensures
        r matches State::Data(_, vs) ==> max == Some(vs.len()),
    decreases bound_measure(max), i.data@.len(),
{
    if max != Some(0nat) {
        let o = choose|o: ParseResult<'a, U, E>|
            #[trigger] call_ensures(f, (i,), o) && many_step(f, min, max, i, o, r);
        if let State::Data(b, v) = o.0 {
            lemma_many_waits_for_input(f, dec_nat(min), dec_bound(max), b, behead(r));
            lemma_prepend_len(v, r);
        }
    }
}

/// `many_till` succeeds only through a success of `end`: a successful
/// outcome ends where some call of `end` ended.
pub proof fn lemma_till_succeeds_by_end<'a, U, E, V, N, P, F>(
    p: P,
    end: F,
    min: nat,
    max: Option<nat>,
    i: Input<'a>,
    r: State<'a, Seq<U>, E>,
)
    where
        E: From<N>,
        P: FnMut(Input<'a>) -> ParseResult<'a, U, E>,
        F: FnMut(Input<'a>) -> ParseResult<'a, V, N>,
    requires
        till_rel(p, end, min, max, i, r),
    ensures
        r matches State::Data(b, _) ==> exists|x: Input<'a>, eo: ParseResult<'a, V, N>|
            #[trigger] call_ensures(end, (x,), eo) && (eo.0 matches State::Data(b2, _) && b2 == b),
    decreases bound_measure(max), i.data@.len(),
{
    let by_item = if min == 0 {
        let eo = choose|eo: ParseResult<'a, V, N>|
            #[trigger] call_ensures(end, (i,), eo) && till_end_step(p, end, min, max, i, eo, r);
        if let State::Data(b, _) = eo.0 {
            assert(call_ensures(end, (i,), eo));
        }
        eo.0 is Error && max != Some(0nat)
    } else {
        true
    };
    if by_item {
        let o = choose|o: ParseResult<'a, U, E>|
            #[trigger] call_ensures(p, (i,), o) && till_item_step(p, end, min, max, i, o, r);
        if let State::Data(b, v) = o.0 {
            lemma_till_succeeds_by_end(p, end, dec_nat(min), dec_bound(max), b, behead(r));
        }
    }
}

// ---------------------------------------------------------------------------
// What each call of a parser leads to
// ---------------------------------------------------------------------------

/// With the upper bound not used up, the first call of a deterministic item
/// parser decides how `many` ends: a failure ends it at `i` with no items
/// once the minimum is met and is passed on otherwise; a request for more
/// input ends it at `i` with no items only when the minimum is met and the
/// input is marked as its end, and is passed on at `i` otherwise; a success
/// puts its value first.
pub proof fn lemma_many_first_call<'a, U, E, F>(
    f: F,
    min: nat,
    max: Option<nat>,
    i: Input<'a>,
    o: ParseResult<'a, U, E>,
    r: State<'a, Seq<U>, E>,
)
    where F: FnMut(Input<'a>) -> ParseResult<'a, U, E>,
    requires
        max != Some(0nat),
        deterministic(f),
        call_ensures(f, (i,), o),
        many_rel(f, min, max, i, r),
    ensures
        o.0 matches State::Error(b, e) ==> (min == 0 ==> r == State::<'a, Seq<U>, E>::Data(
            i,
            Seq::empty(),
        )) && (min > 0 ==> r == State::<'a, Seq<U>, E>::Error(b, e)),
        o.0 matches State::Incomplete(_, n) ==> (min == 0 && i.end_of_input ==> r == State::<
            'a,
            Seq<U>,
            E,
        >::Data(i, Seq::empty())) && (!(min == 0 && i.end_of_input) ==> r == State::<
            'a,
            Seq<U>,
            E,
        >::Incomplete(i, n)),
        o.0 matches State::Data(_, v) ==> (r matches State::Data(_, vs) ==> vs.len() > 0 && vs[0]
            == v),
{
    let o2 = choose|o2: ParseResult<'a, U, E>|
        #[trigger] call_ensures(f, (i,), o2) && many_step(f, min, max, i, o2, r);
    assert(o2 == o);
}

/// Once the upper bound is used up, `many` calls `f` no more: it ends at `i`
/// with no further items.
pub proof fn lemma_many_at_bound<'a, U, E, F>(
    f: F,
    min: nat,
    i: Input<'a>,
    r: State<'a, Seq<U>, E>,
)
    where F: FnMut(Input<'a>) -> ParseResult<'a, U, E>,
    requires
        many_rel(f, min, Some(0nat), i, r),
    ensures
        r == State::<'a, Seq<U>, E>::Data(i, Seq::empty()),
{
}

/// Once the upper bound is used up, `sep_by` calls neither parser: it ends
/// at `i`, after its last item, with no further items.
pub proof fn lemma_sep_at_bound<'a, U, E, V, N, P, F>(
    p: P,
    sep: F,
    min: nat,
    started: bool,
    i: Input<'a>,
    r: State<'a, Seq<U>, E>,
)
    where
        E: From<N>,
        P: FnMut(Input<'a>) -> ParseResult<'a, U, E>,
        F: FnMut(Input<'a>) -> ParseResult<'a, V, N>,
    requires
        sep_rel(p, sep, min, Some(0nat), started, i, r),
    ensures
        r == State::<'a, Seq<U>, E>::Data(i, Seq::empty()),
{
}

/// A `many` that ends with no items ends where it started: at `i`.
pub proof fn lemma_many_empty_rest<'a, U, E, F>(
    f: F,
    min: nat,
    max: Option<nat>,
    i: Input<'a>,
    r: State<'a, Seq<U>, E>,
)
    where F: FnMut(Input<'a>) -> ParseResult<'a, U, E>,
    requires
        many_rel(f, min, max, i, r),
    ensures
        r matches State::Data(rest, vs) ==> (vs.len() == 0 ==> rest == i),
{
    if max != Some(0nat) {
        let o = choose|o: ParseResult<'a, U, E>|
            #[trigger] call_ensures(f, (i,), o) && many_step(f, min, max, i, o, r);
    }
}

/// A `many` that ends with items ends where its last item ended: some call
/// of `f` returned the last value together with the rest.
pub proof fn lemma_many_rest_after_last_item<'a, U, E, F>(
    f: F,
    min: nat,
    max: Option<nat>,
    i: Input<'a>,
    r: State<'a, Seq<U>, E>,
)
    where F: FnMut(Input<'a>) -> ParseResult<'a, U, E>,
    requires
        many_rel(f, min, max, i, r),
    ensures
        r matches State::Data(rest, vs) ==> (vs.len() > 0 ==> exists|x: Input<'a>, o: ParseResult<'a, U, E>|
            #[trigger] call_ensures(f, (x,), o) && o.0 == State::<'a, U, E>::Data(rest, vs.last())),
    decreases bound_measure(max), i.data@.len(),
{
    if max != Some(0nat) {
        let o = choose|o: ParseResult<'a, U, E>|
            #[trigger] call_ensures(f, (i,), o) && many_step(f, min, max, i, o, r);
        if let State::Data(b, v) = o.0 {
            let sub = behead(r);
            lemma_many_empty_rest(f, dec_nat(min), dec_bound(max), b, sub);
            lemma_many_rest_after_last_item(f, dec_nat(min), dec_bound(max), b, sub);
            if let State::Data(rest, vs) = r {
                if let State::Data(_, ws) = sub {
                    assert(vs =~= seq![v] + ws);
                    if ws.len() == 0 {
                        assert(vs.last() == v);
                        assert(call_ensures(f, (i,), o));
                    } else {
                        assert(vs.last() == ws.last());
                    }
                }
            }
        }
    }
}

/// Once the minimum is met, a deterministic `end` decides the outcome of
/// `many_till` at `i` unless it fails before the upper bound is used up: a
/// success ends the repetition after the part it matched with no further
/// item, a request for more input makes the whole wait at `i` (the item
/// parser is not tried on a partly received end), and a failure at the upper
/// bound is passed on, converted.
pub proof fn lemma_till_end_call<'a, U, E, V, N, P, F>(
    p: P,
    end: F,
    min: nat,
    max: Option<nat>,
    i: Input<'a>,
    eo: ParseResult<'a, V, N>,
    r: State<'a, Seq<U>, E>,
)
    where
        E: From<N>,
        P: FnMut(Input<'a>) -> ParseResult<'a, U, E>,
        F: FnMut(Input<'a>) -> ParseResult<'a, V, N>,
    requires
        min == 0,
        deterministic(end),
        call_ensures(end, (i,), eo),
        till_rel(p, end, min, max, i, r),
    ensures
        eo.0 matches State::Data(b, _) ==> r == State::<'a, Seq<U>, E>::Data(b, Seq::empty()),
        eo.0 matches State::Incomplete(_, n) ==> r == State::<'a, Seq<U>, E>::Incomplete(i, n),
        max == Some(0nat) ==> (eo.0 matches State::Error(b, e) ==> (r matches State::Error(rb, re)
            && rb == b && converted::<E, N>(e, re))),
{
    let eo2 = choose|eo2: ParseResult<'a, V, N>|
        #[trigger] call_ensures(end, (i,), eo2) && till_end_step(p, end, min, max, i, eo2, r);
    assert(eo2 == eo);
}

/// When the item parser of `many_till` is called at `i` (the minimum not
/// met yet, or `end` failed there before the upper bound was used up), its
/// outcome is passed on whatever the end-of-input flag: a failure as it is,
/// a request for more input at `i`, and a success puts its value first.
pub proof fn lemma_till_item_call<'a, U, E, V, N, P, F>(
    p: P,
    end: F,
    min: nat,
    max: Option<nat>,
    i: Input<'a>,
    eo: ParseResult<'a, V, N>,
    o: ParseResult<'a, U, E>,
    r: State<'a, Seq<U>, E>,
)
    where
        E: From<N>,
        P: FnMut(Input<'a>) -> ParseResult<'a, U, E>,
        F: FnMut(Input<'a>) -> ParseResult<'a, V, N>,
    requires
        min == 0 ==> call_ensures(end, (i,), eo) && eo.0 is Error && max != Some(0nat),
        deterministic(p),
        deterministic(end),
        call_ensures(p, (i,), o),
        till_rel(p, end, min, max, i, r),
    ensures
        o.0 matches State::Error(b, e) ==> r == State::<'a, Seq<U>, E>::Error(b, e),
        o.0 matches State::Incomplete(_, n) ==> r == State::<'a, Seq<U>, E>::Incomplete(i, n),
        o.0 matches State::Data(_, v) ==> (r matches State::Data(_, vs) ==> vs.len() > 0 && vs[0]
            == v),
{
    if min == 0 {
        let eo2 = choose|eo2: ParseResult<'a, V, N>|
            #[trigger] call_ensures(end, (i,), eo2) && till_end_step(p, end, min, max, i, eo2, r);
        assert(eo2 == eo);
    }
    let o2 = choose|o2: ParseResult<'a, U, E>|
        #[trigger] call_ensures(p, (i,), o2) && till_item_step(p, end, min, max, i, o2, r);
    assert(o2 == o);
}

/// After an item, with the upper bound not used up, a deterministic
/// separator decides how `sep_by` goes on at `i`.  A failure ends the
/// repetition at `i`, before the separator, with no further items once the
/// minimum is met, whatever the end-of-input flag, and is passed on
/// (converted) otherwise.  A request for more input ends it at `i` only when
/// the minimum is met and the input is marked as its end; otherwise the
/// whole waits at `i`.
pub proof fn lemma_sep_separator_call<'a, U, E, V, N, P, F>(
    p: P,
    sep: F,
    min: nat,
    max: Option<nat>,
    i: Input<'a>,
    so: ParseResult<'a, V, N>,
    r: State<'a, Seq<U>, E>,
)
    where
        E: From<N>,
        P: FnMut(Input<'a>) -> ParseResult<'a, U, E>,
        F: FnMut(Input<'a>) -> ParseResult<'a, V, N>,
    requires
        max != Some(0nat),
        deterministic(sep),
        call_ensures(sep, (i,), so),
        sep_rel(p, sep, min, max, true, i, r),
    ensures
        so.0 matches State::Error(b, e) ==> (min == 0 ==> r == State::<'a, Seq<U>, E>::Data(
            i,
            Seq::empty(),
        )) && (min > 0 ==> (r matches State::Error(rb, re) && rb == b && converted::<E, N>(
            e,
            re,
        ))),
        so.0 matches State::Incomplete(_, n) ==> (min == 0 && i.end_of_input ==> r == State::<
            'a,
            Seq<U>,
            E,
        >::Data(i, Seq::empty())) && (!(min == 0 && i.end_of_input) ==> r == State::<
            'a,
            Seq<U>,
            E,
        >::Incomplete(i, n)),
{
    let so2 = choose|so2: ParseResult<'a, V, N>|
        #[trigger] call_ensures(sep, (i,), so2) && sep_sep_step(p, sep, min, max, i, so2, r);
    assert(so2 == so);
}

/// The item of a `sep_by` step, called at `at` (right after a successful
/// separator, or at `i` for the first item), decides how the step ends: a
/// failure or a request for more input ends the repetition at `i`, before
/// the separator, as for `many`, and a success puts its value first.
pub proof fn lemma_sep_item_call<'a, U, E, V, N, P, F>(
    p: P,
    sep: F,
    min: nat,
    max: Option<nat>,
    started: bool,
    i: Input<'a>,
    so: ParseResult<'a, V, N>,
    at: Input<'a>,
    o: ParseResult<'a, U, E>,
    r: State<'a, Seq<U>, E>,
)
    where
        E: From<N>,
        P: FnMut(Input<'a>) -> ParseResult<'a, U, E>,
        F: FnMut(Input<'a>) -> ParseResult<'a, V, N>,
    requires
        max != Some(0nat),
        started ==> (call_ensures(sep, (i,), so) && (so.0 matches State::Data(a, _) && a == at)),
        !started ==> at == i,
        deterministic(p),
        deterministic(sep),
        call_ensures(p, (at,), o),
        sep_rel(p, sep, min, max, started, i, r),
    ensures
        o.0 matches State::Error(b, e) ==> (min == 0 ==> r == State::<'a, Seq<U>, E>::Data(
            i,
            Seq::empty(),
        )) && (min > 0 ==> r == State::<'a, Seq<U>, E>::Error(b, e)),
        o.0 matches State::Incomplete(_, n) ==> (min == 0 && i.end_of_input ==> r == State::<
            'a,
            Seq<U>,
            E,
        >::Data(i, Seq::empty())) && (!(min == 0 && i.end_of_input) ==> r == State::<
            'a,
            Seq<U>,
            E,
        >::Incomplete(i, n)),
        o.0 matches State::Data(_, v) ==> (r matches State::Data(_, vs) ==> vs.len() > 0 && vs[0]
            == v),
{
    if started {
        let so2 = choose|so2: ParseResult<'a, V, N>|
            #[trigger] call_ensures(sep, (i,), so2) && sep_sep_step(p, sep, min, max, i, so2, r);
        assert(so2 == so);
    }
    let o2 = choose|o2: ParseResult<'a, U, E>|
        #[trigger] call_ensures(p, (at,), o2) && sep_item_step(p, sep, min, max, i, o2, r);
    assert(o2 == o);
}

/// A `sep_by` that ends with no further items ends where it stood: at `i`,
/// never inside a separator that failed.
pub proof fn lemma_sep_empty_rest<'a, U, E, V, N, P, F>(
    p: P,
    sep: F,
    min: nat,
    max: Option<nat>,
    started: bool,
    i: Input<'a>,
    r: State<'a, Seq<U>, E>,
)
    where
        E: From<N>,
        P: FnMut(Input<'a>) -> ParseResult<'a, U, E>,
        F: FnMut(Input<'a>) -> ParseResult<'a, V, N>,
    requires
        sep_rel(p, sep, min, max, started, i, r),
    ensures
        r matches State::Data(rest, vs) ==> (vs.len() == 0 ==> rest == i),
{
    if max != Some(0nat) {
        let at = if !started {
            i
        } else {
            let so = choose|so: ParseResult<'a, V, N>|
                #[trigger] call_ensures(sep, (i,), so) && sep_sep_step(p, sep, min, max, i, so, r);
            match so.0 {
                State::Data(at, _) => at,
                _ => {
                    return;
                },
            }
        };
        let o = choose|o: ParseResult<'a, U, E>|
            #[trigger] call_ensures(p, (at,), o) && sep_item_step(p, sep, min, max, i, o, r);
    }
}

/// A `sep_by` that ends with items ends where its last item ended: some call
/// of `p` returned the last value together with the rest.
pub proof fn lemma_sep_rest_after_last_item<'a, U, E, V, N, P, F>(
    p: P,
    sep: F,
    min: nat,
    max: Option<nat>,
    started: bool,
    i: Input<'a>,
    r: State<'a, Seq<U>, E>,
)
    where
        E: From<N>,
        P: FnMut(Input<'a>) -> ParseResult<'a, U, E>,
        F: FnMut(Input<'a>) -> ParseResult<'a, V, N>,
    requires
        sep_rel(p, sep, min, max, started, i, r),
    ensures
        r matches State::Data(rest, vs) ==> (vs.len() > 0 ==> exists|x: Input<'a>, o: ParseResult<'a, U, E>|
            #[trigger] call_ensures(p, (x,), o) && o.0 == State::<'a, U, E>::Data(rest, vs.last())),
    decreases bound_measure(max), i.data@.len(),
{
    if max != Some(0nat) {
        let at = if !started {
            i
        } else {
            let so = choose|so: ParseResult<'a, V, N>|
                #[trigger] call_ensures(sep, (i,), so) && sep_sep_step(p, sep, min, max, i, so, r);
            match so.0 {
                State::Data(at, _) => at,
                _ => {
                    return;
                },
            }
        };
        let o = choose|o: ParseResult<'a, U, E>|
            #[trigger] call_ensures(p, (at,), o) && sep_item_step(p, sep, min, max, i, o, r);
        if let State::Data(b, v) = o.0 {
            let sub = behead(r);
            lemma_sep_empty_rest(p, sep, dec_nat(min), dec_bound(max), true, b, sub);
            lemma_sep_rest_after_last_item(p, sep, dec_nat(min), dec_bound(max), true, b, sub);
            if let State::Data(rest, vs) = r {
                if let State::Data(_, ws) = sub {
                    assert(vs =~= seq![v] + ws);
                    if ws.len() == 0 {
                        assert(vs.last() == v);
                        assert(call_ensures(p, (at,), o));
                    } else {
                        assert(vs.last() == ws.last());
                    }
                }
            }
        }
    }
}

// ---------------------------------------------------------------------------
// Range forms with the same bounds repeat alike
// ---------------------------------------------------------------------------

/// Without a minimum, `many` never fails: it ends with what it collected or
/// asks for more input.
pub proof fn lemma_many_without_minimum_never_fails<'a, U, E, F>(
    f: F,
    max: Option<nat>,
    i: Input<'a>,
    r: State<'a, Seq<U>, E>,
)
    where F: FnMut(Input<'a>) -> ParseResult<'a, U, E>,
    requires
        many_rel(f, 0, max, i, r),
    ensures
        !(r is Error),
    decreases bound_measure(max), i.data@.len(),
{
    if max != Some(0nat) {
        let o = choose|o: ParseResult<'a, U, E>|
            #[trigger] call_ensures(f, (i,), o) && many_step(f, 0, max, i, o, r);
        if let State::Data(b, v) = o.0 {
            lemma_many_without_minimum_never_fails(f, dec_bound(max), b, behead(r));
        }
    }
}

/// `..n` and `0..n` allow the same counts: with a deterministic parser,
/// `many` over either has the same outcome, and that outcome is never a
/// failure.
pub proof fn lemma_many_range_to_as_range<'a, U, E, F>(
    upto: RangeTo<usize>,
    range: Range<usize>,
    f: F,
    i: Input<'a>,
    r1: State<'a, Seq<U>, E>,
    r2: State<'a, Seq<U>, E>,
)
    where F: FnMut(Input<'a>) -> ParseResult<'a, U, E>,
    requires
        range.start == 0,
        range.end == upto.end,
        deterministic(f),
        many_rel(f, upto.lower_bound(), upto.upper_bound(), i, r1),
        many_rel(f, range.lower_bound(), range.upper_bound(), i, r2),
    ensures
        r1 == r2,
        !(r1 is Error),
{
    lemma_many_unique(f, range.lower_bound(), range.upper_bound(), i, r1, r2);
    lemma_many_without_minimum_never_fails(f, upto.upper_bound(), i, r1);
}

/// `0..` and `..` allow the same counts: with a deterministic parser, `many`
/// over either has the same outcome.
pub proof fn lemma_many_range_from_zero_as_full<'a, U, E, F>(
    from: RangeFrom<usize>,
    full: RangeFull,
    f: F,
    i: Input<'a>,
    r1: State<'a, Seq<U>, E>,
    r2: State<'a, Seq<U>, E>,
)
    where F: FnMut(Input<'a>) -> ParseResult<'a, U, E>,
    requires
        from.start == 0,
        deterministic(f),
        many_rel(f, from.lower_bound(), from.upper_bound(), i, r1),
        many_rel(f, full.lower_bound(), full.upper_bound(), i, r2),
    ensures
        r1 == r2,
{
    lemma_many_unique(f, full.lower_bound(), full.upper_bound(), i, r1, r2);
}

/// An exact count `n` allows the same counts as `n..n+1`: with a
/// deterministic parser, `many` over either has the same outcome, and a
/// success holds exactly `n` items.
pub proof fn lemma_many_exact_as_range<'a, U, E, F>(
    n: usize,
    range: Range<usize>,
    f: F,
    i: Input<'a>,
    r1: State<'a, Seq<U>, E>,
    r2: State<'a, Seq<U>, E>,
)
    where F: FnMut(Input<'a>) -> ParseResult<'a, U, E>,
    requires
        range.start == n,
        range.end == n + 1,
        deterministic(f),
        many_rel(f, n.lower_bound(), n.upper_bound(), i, r1),
        many_rel(f, range.lower_bound(), range.upper_bound(), i, r2),
    ensures
        r1 == r2,
        r1 matches State::Data(_, vs) ==> vs.len() == n,
{
    lemma_many_unique(f, range.lower_bound(), range.upper_bound(), i, r1, r2);
    lemma_many_count(f, n.lower_bound(), n.upper_bound(), i, r1);
}

/// `..n` and `0..n` allow the same counts: with deterministic parsers and
/// conversion, `many_till` over either has the same outcome.
pub proof fn lemma_till_range_to_as_range<'a, U, E, V, N, P, F>(
    upto: RangeTo<usize>,
    range: Range<usize>,
    p: P,
    end: F,
    i: Input<'a>,
    r1: State<'a, Seq<U>, E>,
    r2: State<'a, Seq<U>, E>,
)
    where
        E: From<N>,
        P: FnMut(Input<'a>) -> ParseResult<'a, U, E>,
        F: FnMut(Input<'a>) -> ParseResult<'a, V, N>,
    requires
        range.start == 0,
        range.end == upto.end,
        deterministic(p),
        deterministic(end),
        conversion_deterministic::<E, N>(),
        till_rel(p, end, upto.lower_bound(), upto.upper_bound(), i, r1),
        till_rel(p, end, range.lower_bound(), range.upper_bound(), i, r2),
    ensures
        r1 == r2,
{
    lemma_till_unique(p, end, range.lower_bound(), range.upper_bound(), i, r1, r2);
}

/// `0..` and `..` allow the same counts: with deterministic parsers and
/// conversion, `many_till` over either has the same outcome.
pub proof fn lemma_till_range_from_zero_as_full<'a, U, E, V, N, P, F>(
    from: RangeFrom<usize>,
    full: RangeFull,
    p: P,
    end: F,
    i: Input<'a>,
    r1: State<'a, Seq<U>, E>,
    r2: State<'a, Seq<U>, E>,
)
    where
        E: From<N>,
        P: FnMut(Input<'a>) -> ParseResult<'a, U, E>,
        F: FnMut(Input<'a>) -> ParseResult<'a, V, N>,
    requires
        from.start == 0,
        deterministic(p),
        deterministic(end),
        conversion_deterministic::<E, N>(),
        till_rel(p, end, from.lower_bound(), from.upper_bound(), i, r1),
        till_rel(p, end, full.lower_bound(), full.upper_bound(), i, r2),
    ensures
        r1 == r2,
{
    lemma_till_unique(p, end, full.lower_bound(), full.upper_bound(), i, r1, r2);
}

/// An exact count `n` allows the same counts as `n..n+1`: with deterministic
/// parsers and conversion, `many_till` over either has the same outcome, and
/// a success holds exactly `n` items.
pub proof fn lemma_till_exact_as_range<'a, U, E, V, N, P, F>(
    n: usize,
    range: Range<usize>,
    p: P,
    end: F,
    i: Input<'a>,
    r1: State<'a, Seq<U>, E>,
    r2: State<'a, Seq<U>, E>,
)
    where
        E: From<N>,
        P: FnMut(Input<'a>) -> ParseResult<'a, U, E>,
        F: FnMut(Input<'a>) -> ParseResult<'a, V, N>,
    requires
        range.start == n,
        range.end == n + 1,
        deterministic(p),
        deterministic(end),
        conversion_deterministic::<E, N>(),
        till_rel(p, end, n.lower_bound(), n.upper_bound(), i, r1),
        till_rel(p, end, range.lower_bound(), range.upper_bound(), i, r2),
    ensures
        r1 == r2,
        r1 matches State::Data(_, vs) ==> vs.len() == n,
{
    lemma_till_unique(p, end, range.lower_bound(), range.upper_bound(), i, r1, r2);
    lemma_till_count(p, end, n.lower_bound(), n.upper_bound(), i, r1);
}

// ---------------------------------------------------------------------------
// The combinators
// ---------------------------------------------------------------------------

/// Applies the parser `f` multiple times until it fails or the maximum value
/// of the range has been reached, collecting the successful values.
///
/// Propagates the failure if the minimum number of iterations has not been
/// met, and never yields more items than the upper bound of the range. When
/// the last attempt is incomplete, the result is incomplete unless the input
/// is marked as its end.  The range must admit some number of items: an
/// empty range `n..n` with `n > 0` is refused.
pub fn many<'a, U, E, F, R>(i: Input<'a>, r: R, f: F) -> (res: ParseResult<'a, Vec<U>, E>)
    where
        R: BoundedRange,
        F: FnMut(Input<'a>) -> ParseResult<'a, U, E>,
    requires
        bounds_ordered(r.lower_bound(), r.upper_bound()),
        parser_total(f),
        r.upper_bound() is None ==> consumes_within(f, i),
    ensures
        many_rel(f, r.lower_bound(), r.upper_bound(), i, seq_state(res.0)),
        res.0 matches State::Data(_, vs) ==> count_within(
            vs@.len(),
            r.lower_bound(),
            r.upper_bound(),
        ),
{
    let ghost (lo, hi) = (r.lower_bound(), r.upper_bound());
    let res = r.parse_many(i, f);
    proof {
        lemma_many_count(f, lo, hi, i, seq_state(res.0));
    }
    res
}

/// Applies the parser `f` multiple times until it fails or the maximum value
/// of the range has been reached, throwing away any produced value.
///
/// The outcome is that of `many` with the values dropped.
pub fn skip_many<'a, U, E, F, R>(i: Input<'a>, r: R, f: F) -> (res: ParseResult<'a, (), E>)
    where
        R: BoundedRange,
        F: FnMut(Input<'a>) -> ParseResult<'a, U, E>,
    requires
        r.is_ordered(),
        parser_total(f),
        r.upper_bound() is None ==> consumes_within(f, i),
    ensures
        exists|m: State<'a, Seq<U>, E>|
            #[trigger] many_rel(f, r.lower_bound(), r.upper_bound(), i, m) && res.0 == unit_state(
                m,
            ),
{
    r.skip_many(i, f)
}

/// Applies the parser `p` multiple times until the parser `end` succeeds and
/// returns the values yielded by `p`; consumes the part matched by `end`.
///
/// `end` is tried before each item once the minimum is met; when it has not
/// succeeded by the upper bound its failure is passed on, and failures of `p`
/// are always passed on.  The range must admit some number of items: an
/// empty range `n..n` with `n > 0` is refused.
pub fn many_till<'a, U, E, V, N, R, P, F>(i: Input<'a>, r: R, p: P, end: F) -> (res: ParseResult<
    'a,
    Vec<U>,
    E,
>)
    where
        R: BoundedRange,
        E: From<N>,
        P: FnMut(Input<'a>) -> ParseResult<'a, U, E>,
        F: FnMut(Input<'a>) -> ParseResult<'a, V, N>,
    requires
        bounds_ordered(r.lower_bound(), r.upper_bound()),
        parser_total(p),
        parser_total(end),
        r.upper_bound() is None ==> consumes_within(p, i),
    ensures
        till_rel(p, end, r.lower_bound(), r.upper_bound(), i, seq_state(res.0)),
        res.0 matches State::Data(_, vs) ==> count_within(
            vs@.len(),
            r.lower_bound(),
            r.upper_bound(),
        ),
{
    let ghost (lo, hi) = (r.lower_bound(), r.upper_bound());
    let res = r.many_till(i, p, end);
    proof {
        lemma_till_count(p, end, lo, hi, i, seq_state(res.0));
    }
    res
}

/// Applies the parser `p` multiple times, separated by the parser `sep`, and
/// returns the values yielded by `p`.
///
/// A separator and the item after it count as one step: when either fails
/// the repetition ends before the separator, or the failure is passed on
/// when the minimum number of items has not been met.  The range must admit
/// some number of items: an empty range `n..n` with `n > 0` is refused.
pub fn sep_by<'a, U, E, V, N, R, P, F>(i: Input<'a>, r: R, p: P, sep: F) -> (res: ParseResult<
    'a,
    Vec<U>,
    E,
>)
    where
        R: BoundedRange,
        E: From<N>,
        P: FnMut(Input<'a>) -> ParseResult<'a, U, E>,
        F: FnMut(Input<'a>) -> ParseResult<'a, V, N>,
    requires
        bounds_ordered(r.lower_bound(), r.upper_bound()),
        parser_total(p),
        parser_total(sep),
        r.upper_bound() is None ==> consumes_within(p, i) && never_grows_within(
            sep,
            i,
        ),
    ensures
        sep_rel(p, sep, r.lower_bound(), r.upper_bound(), false, i, seq_state(res.0)),
        res.0 matches State::Data(_, vs) ==> count_within(
            vs@.len(),
            r.lower_bound(),
            r.upper_bound(),
        ),
{
    let (lo, hi) = r.bounds();
    let res = run_sep(i, lo, hi, p, sep);
    proof {
        lemma_sep_count(p, sep, lo as nat, opt_nat(hi), false, i, seq_state(res.0));
    }
    res
}

} // verus!
