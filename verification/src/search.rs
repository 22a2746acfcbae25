//! The decisions of the margin search.
//!
//! The margin of a circuit parameter is searched by bisection on the ratio of
//! the tried value to the parameter's initial value.  Each tried value is
//! simulated and judged (pass or fail) outside this module; this module says
//! which adjustment each verdict calls for and when a search is over.
//!
//! * Upper margin: the first value tried is twice the initial value.  If it
//!   passes, the search is over.  Otherwise the value is lowered by half the
//!   initial value, and `rounds - 1` more values are tried; after each one the
//!   value is raised on a pass and lowered on a failure.
//! * Lower margin: the first value tried is half the initial value, and
//!   `rounds` values are tried; after each one the value is lowered on a pass
//!   and raised on a failure.
//!
//! The step starts at half (upper) or a quarter (lower) of the initial value
//! and halves after each adjustment.  In exact arithmetic every tried value is
//! the initial value times `candidate / scale`, where `scale` is
//! `2^(rounds + 2)`; the spec functions below track these integers.
use vstd::prelude::*;
use vstd::arithmetic::power2::{pow2, lemma_pow2_pos, lemma_pow2_unfold, lemma_pow2_adds};

verus! {

/// Which end of the margin is searched.
#[derive(Clone, Copy, Debug, PartialEq, Eq, Structural)]
pub enum Bound {
    /// The largest value for which the circuit still works.
    Upper,
    /// The smallest value for which the circuit still works.
    Lower,
}

/// What a verdict does to the value under test.
#[derive(Clone, Copy, Debug, PartialEq, Eq, Structural)]
pub enum Adjust {
    /// Add the current step, then halve the step.
    Raise,
    /// Subtract the current step, then halve the step.
    Lower,
    /// Leave value and step as they are.
    Keep,
}

/// Why a verdict could not be recorded.
#[derive(Clone, Copy, Debug, PartialEq, Eq, Structural)]
pub enum SearchError {
    /// The search is already over.
    Finished,
    /// An upper search with no rounds failed its first value and has no
    /// round left to refine it.
    NoRounds,
}

/// The adjustment that the verdict `passed` calls for after the verdicts `prior`.
pub open spec fn adjust_spec(b: Bound, prior: Seq<bool>, passed: bool) -> Adjust {
    match b {
        Bound::Upper => if prior.len() == 0 {
            if passed {
                Adjust::Keep
            } else {
                Adjust::Lower
            }
        } else if passed {
            Adjust::Raise
        } else {
            Adjust::Lower
        },
        Bound::Lower => if passed {
            Adjust::Lower
        } else {
            Adjust::Raise
        },
    }
}

/// The search is over after the verdicts `v`.
pub open spec fn finished(b: Bound, r: nat, v: Seq<bool>) -> bool {
    match b {
        Bound::Upper => v.len() >= 1 && (v[0] || v.len() >= r),
        Bound::Lower => v.len() >= r,
    }
}

/// The verdict `passed` cannot be taken after `prior`: see `SearchError::NoRounds`.
pub open spec fn blocked(b: Bound, r: nat, prior: Seq<bool>, passed: bool) -> bool {
    b == Bound::Upper && prior.len() == 0 && !passed && r == 0
}

/// `v` is a sequence of verdicts that a search can record.
pub open spec fn valid_run(b: Bound, r: nat, v: Seq<bool>) -> bool
    decreases v.len(),
{
    v.len() == 0 || {
        &&& valid_run(b, r, v.drop_last())
        &&& !finished(b, r, v.drop_last())
        &&& !blocked(b, r, v.drop_last(), v.last())
    }
}

/// The number of candidate units in the initial value.
pub open spec fn scale(r: nat) -> int {
    pow2(r + 2) as int
}

/// The first candidate and the exponent of the first step (the step is
/// `2^exponent` units).
pub open spec fn start_state(b: Bound, r: nat) -> (int, nat) {
    match b {
        Bound::Upper => (pow2(r + 3) as int, r + 1),
        Bound::Lower => (pow2(r + 1) as int, r),
    }
}

pub open spec fn step_state(st: (int, nat), a: Adjust) -> (int, nat) {
    match a {
        Adjust::Raise => (st.0 + pow2(st.1), (st.1 - 1) as nat),
        Adjust::Lower => (st.0 - pow2(st.1), (st.1 - 1) as nat),
        Adjust::Keep => st,
    }
}

/// The candidate (in units of `1 / scale(r)` of the initial value) and the
/// step exponent after the verdicts `v`.
pub open spec fn trace(b: Bound, r: nat, v: Seq<bool>) -> (int, nat)
    decreases v.len(),
{
    if v.len() == 0 {
        start_state(b, r)
    } else {
        step_state(trace(b, r, v.drop_last()), adjust_spec(b, v.drop_last(), v.last()))
    }
}

/// The value tried (or, when the search is over, found) after the verdicts
/// `v`, in units of `1 / scale(r)` of the initial value.
pub open spec fn candidate(b: Bound, r: nat, v: Seq<bool>) -> int {
    trace(b, r, v).0
}

/// The first `n` verdicts of a search in which a value passes exactly when
/// `pass` holds of its candidate.
pub open spec fn run_by(b: Bound, r: nat, pass: spec_fn(int) -> bool, n: nat) -> Seq<bool>
    decreases n,
{
    if n == 0 {
        Seq::empty()
    } else {
        let v = run_by(b, r, pass, (n - 1) as nat);
        v.push(pass(candidate(b, r, v)))
    }
}

/// How many verdicts such a search records before it is over.
pub open spec fn run_length(b: Bound, r: nat, pass: spec_fn(int) -> bool) -> nat {
    match b {
        Bound::Upper => if pass(2 * scale(r)) {
            1
        } else {
            r
        },
        Bound::Lower => r,
    }
}

/// The margin bound that such a search finds, in units of `1 / scale(r)`
/// of the initial value.
pub open spec fn margin_found(b: Bound, r: nat, pass: spec_fn(int) -> bool) -> int {
    candidate(b, r, run_by(b, r, pass, run_length(b, r, pass)))
}

/// A search for one bound of one parameter's margin.
pub struct MarginSearch {
    bound: Bound,
    rounds: usize,
    verdicts: Vec<bool>,
}

impl MarginSearch {
    /// The verdicts recorded always form a run that the search allows.
    #[verifier::type_invariant]
    spec fn well_formed(self) -> bool {
        valid_run(self.bound, self.rounds as nat, self.verdicts@)
    }

    pub closed spec fn spec_bound(&self) -> Bound {
        self.bound
    }

    pub closed spec fn spec_rounds(&self) -> nat {
        self.rounds as nat
    }

    /// The verdicts recorded so far, in order.
    pub closed spec fn spec_verdicts(&self) -> Seq<bool> {
        self.verdicts@
    }

    /// A search with no verdict yet.
    pub fn new(bound: Bound, rounds: usize) -> (s: MarginSearch)
        ensures
            s.spec_bound() == bound,
            s.spec_rounds() == rounds,
            s.spec_verdicts() == Seq::<bool>::empty(),
            valid_run(bound, rounds as nat, s.spec_verdicts()),
    {
        MarginSearch { bound, rounds, verdicts: Vec::new() }
    }

    /// The search is over: the current value is the margin found.
    pub fn is_finished(&self) -> (b: bool)
        ensures
            b == finished(self.spec_bound(), self.spec_rounds(), self.spec_verdicts()),
    {
        match self.bound {
            Bound::Upper => self.verdicts.len() >= 1 && (self.verdicts[0] || self.verdicts.len()
                >= self.rounds),
            Bound::Lower => self.verdicts.len() >= self.rounds,
        }
    }

    /// The number of verdicts recorded so far.
    pub fn probes(&self) -> (n: usize)
        ensures
            n == self.spec_verdicts().len(),
    {
        self.verdicts.len()
    }

    /// Records the verdict on the value under test and says how that value
    /// is to change.
    pub fn record(&mut self, passed: bool) -> (r: Result<Adjust, SearchError>)
        ensures
            valid_run(old(self).spec_bound(), old(self).spec_rounds(), old(self).spec_verdicts()),
            final(self).spec_bound() == old(self).spec_bound(),
            final(self).spec_rounds() == old(self).spec_rounds(),
            valid_run(final(self).spec_bound(), final(self).spec_rounds(), final(self).spec_verdicts()),
            finished(old(self).spec_bound(), old(self).spec_rounds(), old(self).spec_verdicts())
                ==> r == Err::<Adjust, SearchError>(SearchError::Finished) && final(self).spec_verdicts()
                == old(self).spec_verdicts(),
            !finished(old(self).spec_bound(), old(self).spec_rounds(), old(self).spec_verdicts())
                && blocked(old(self).spec_bound(), old(self).spec_rounds(), old(self).spec_verdicts(), passed)
                ==> r == Err::<Adjust, SearchError>(SearchError::NoRounds) && final(self).spec_verdicts()
                == old(self).spec_verdicts(),
            !finished(old(self).spec_bound(), old(self).spec_rounds(), old(self).spec_verdicts())
                && !blocked(old(self).spec_bound(), old(self).spec_rounds(), old(self).spec_verdicts(), passed)
                ==> r == Ok::<Adjust, SearchError>(adjust_spec(old(self).spec_bound(), old(self).spec_verdicts(), passed))
                && final(self).spec_verdicts() == old(self).spec_verdicts().push(passed),
    {
        proof {
            use_type_invariant(&*self);
        }
        if self.is_finished() {
            return Err(SearchError::Finished);
        }
        let first = self.verdicts.len() == 0;
        if self.bound == Bound::Upper && first && !passed && self.rounds == 0 {
            return Err(SearchError::NoRounds);
        }
        let a = match self.bound {
            Bound::Upper => if first {
                if passed {
                    Adjust::Keep
                } else {
                    Adjust::Lower
                }
            } else if passed {
                Adjust::Raise
            } else {
                Adjust::Lower
            },
            Bound::Lower => if passed {
                Adjust::Lower
            } else {
                Adjust::Raise
            },
        };
        let ghost prior = self.verdicts@;
        let mut verdicts: Vec<bool> = Vec::new();
        std::mem::swap(&mut verdicts, &mut self.verdicts);
        verdicts.push(passed);
        assert(verdicts@.drop_last() =~= prior);
        self.verdicts = verdicts;
        Ok(a)
    }
}

/// Where the candidate and step stand after a valid run: the interval of
/// two steps around the candidate stays within the searched range.
pub open spec fn bracket(b: Bound, r: nat, v: Seq<bool>) -> bool {
    let c = trace(b, r, v).0;
    let k = trace(b, r, v).1;
    match b {
        Bound::Lower => {
            &&& v.len() <= r
            &&& k + v.len() == r
            &&& 0 <= c - 2 * pow2(k)
            &&& c + 2 * pow2(k) <= scale(r)
        },
        Bound::Upper => if v.len() == 0 {
            c == 2 * scale(r) && k == r + 1
        } else if v[0] {
            v.len() == 1 && c == 2 * scale(r)
        } else {
            &&& v.len() <= r
            &&& k + v.len() == r + 1
            &&& scale(r) <= c - 2 * pow2(k)
            &&& c + 2 * pow2(k) <= 2 * scale(r)
        },
    }
}

proof fn lemma_pow2_facts(r: nat)
    ensures
        pow2(r + 1) == 2 * pow2(r),
        pow2(r + 2) == 2 * pow2(r + 1),
        pow2(r + 3) == 2 * pow2(r + 2),
        pow2(r) >= 1,
{
    lemma_pow2_unfold(r + 1);
    lemma_pow2_unfold(r + 2);
    lemma_pow2_unfold(r + 3);
    lemma_pow2_pos(r);
}

pub proof fn lemma_bracket(b: Bound, r: nat, v: Seq<bool>)
    requires
        valid_run(b, r, v),
    ensures
        bracket(b, r, v),
    decreases v.len(),
{
    lemma_pow2_facts(r);
    if v.len() > 0 {
        let d = v.drop_last();
        lemma_bracket(b, r, d);
        let k = trace(b, r, d).1;
        if k > 0 {
            lemma_pow2_unfold(k);
        }
        match b {
            Bound::Lower => {},
            Bound::Upper => {
                if d.len() > 0 {
                    assert(d[0] == v[0]);
                }
                if d.len() == 0 && !v[0] {
                    assert(k == r + 1);
                    assert(pow2((k - 1) as nat) == pow2(r));
                }
            },
        }
    }
}

/// A valid run does not outlast its rounds: a lower search records at most
/// `rounds` verdicts, an upper search at most `rounds` (and one when its
/// first value passes).
pub proof fn lemma_run_length(b: Bound, r: nat, v: Seq<bool>)
    requires
        valid_run(b, r, v),
    ensures
        b == Bound::Lower ==> v.len() <= r,
        b == Bound::Upper && v.len() > 0 && v[0] ==> v.len() == 1,
        b == Bound::Upper && v.len() > 0 && !v[0] ==> v.len() <= r,
        finished(b, r, v) && b == Bound::Lower ==> v.len() == r,
        finished(b, r, v) && b == Bound::Upper && !v[0] ==> v.len() == r,
{
    lemma_bracket(b, r, v);
}

/// Law: the margin found lies in the searched range.  A finished lower
/// search ends strictly between zero and the initial value; a finished upper
/// search ends strictly above the initial value and at most at twice it.
pub proof fn lemma_finished_in_range(b: Bound, r: nat, v: Seq<bool>)
    requires
        valid_run(b, r, v),
        finished(b, r, v),
    ensures
        b == Bound::Lower ==> 0 < candidate(b, r, v) < scale(r),
        b == Bound::Upper ==> scale(r) < candidate(b, r, v) <= 2 * scale(r),
{
    lemma_bracket(b, r, v);
    lemma_pow2_pos(trace(b, r, v).1);
    lemma_pow2_facts(r);
}

/// The circuit passes at candidate `c` when its margin bound lies at `t`:
/// values up to `t` pass an upper search, values down to `t` pass a lower one.
pub open spec fn passes(b: Bound, c: int, t: int) -> bool {
    match b {
        Bound::Upper => c <= t,
        Bound::Lower => c >= t,
    }
}

/// Every verdict of `v` is the one that a threshold at `t` gives.
pub open spec fn follows_threshold(b: Bound, r: nat, v: Seq<bool>, t: int) -> bool {
    forall|k: int| 0 <= k < v.len() ==> #[trigger] v[k] == passes(b, candidate(b, r, v.take(k)), t)
}

/// The interval of two steps around the candidate holds the threshold.
pub open spec fn encloses(b: Bound, r: nat, v: Seq<bool>, t: int) -> bool {
    let c = trace(b, r, v).0;
    let k = trace(b, r, v).1;
    match b {
        Bound::Lower => 0 < t <= scale(r) ==> c - 2 * pow2(k) < t <= c + 2 * pow2(k),
        Bound::Upper => {
            &&& v.len() > 0 && v[0] ==> 2 * scale(r) <= t
            &&& v.len() > 0 && !v[0] ==> t < 2 * scale(r)
            &&& v.len() > 0 && !v[0] && scale(r) <= t ==> c - 2 * pow2(k) <= t < c + 2 * pow2(k)
        },
    }
}

proof fn lemma_encloses(b: Bound, r: nat, v: Seq<bool>, t: int)
    requires
        valid_run(b, r, v),
        follows_threshold(b, r, v, t),
    ensures
        encloses(b, r, v, t),
    decreases v.len(),
{
    lemma_pow2_facts(r);
    lemma_bracket(b, r, v);
    if v.len() > 0 {
        let d = v.drop_last();
        assert forall|k: int| 0 <= k < d.len() implies #[trigger] d[k] == passes(
            b,
            candidate(b, r, d.take(k)),
            t,
        ) by {
            assert(d.take(k) =~= v.take(k));
            assert(d[k] == v[k]);
        }
        lemma_encloses(b, r, d, t);
        lemma_bracket(b, r, d);
        assert(v.take(d.len() as int) =~= d);
        assert(v[d.len() as int] == passes(b, candidate(b, r, d), t));
        let k = trace(b, r, d).1;
        if k > 0 {
            lemma_pow2_unfold(k);
        }
        if b == Bound::Upper {
            if d.len() > 0 {
                assert(d[0] == v[0]);
            } else {
                assert(v.take(0) =~= Seq::<bool>::empty());
                assert(v[0] == passes(b, candidate(b, r, Seq::<bool>::empty()), t));
                if !v[0] {
                    assert(pow2((k - 1) as nat) == pow2(r));
                }
            }
        }
    }
}

/// Law: bisection converges on the bound.  When every verdict comes from a
/// threshold `t` (in units of `1 / scale(rounds)` of the initial value), a
/// finished search ends next to it: an upper search whose first value passes
/// ends at twice the initial value with the threshold at or above it, one
/// whose threshold lies in [initial, twice initial) ends within 4 units of
/// it, and a lower search whose threshold lies in (0, initial] ends within 2
/// units of it.
pub proof fn lemma_search_converges(b: Bound, r: nat, v: Seq<bool>, t: int)
    requires
        valid_run(b, r, v),
        finished(b, r, v),
        follows_threshold(b, r, v, t),
    ensures
        b == Bound::Upper && v[0] ==> candidate(b, r, v) == 2 * scale(r) && 2 * scale(r) <= t,
        b == Bound::Upper && !v[0] && scale(r) <= t ==> candidate(b, r, v) - 4 <= t
            < candidate(b, r, v) + 4,
        b == Bound::Lower && 0 < t <= scale(r) ==> candidate(b, r, v) - 2 < t <= candidate(b, r, v)
            + 2,
{
    lemma_encloses(b, r, v, t);
    lemma_bracket(b, r, v);
    lemma_pow2_unfold(1);
    lemma_pow2_facts(0);
    assert(pow2(0) == 1) by {
        vstd::arithmetic::power2::lemma2_to64();
    }
}

proof fn lemma_run_by_shape(b: Bound, r: nat, pass: spec_fn(int) -> bool, n: nat)
    ensures
        run_by(b, r, pass, n).len() == n,
        n >= 1 ==> run_by(b, r, pass, n).drop_last() == run_by(b, r, pass, (n - 1) as nat),
        n >= 1 ==> run_by(b, r, pass, n)[0] == pass(start_state(b, r).0),
    decreases n,
{
    if n >= 1 {
        lemma_run_by_shape(b, r, pass, (n - 1) as nat);
        let v = run_by(b, r, pass, (n - 1) as nat);
        assert(v.push(pass(candidate(b, r, v))).drop_last() =~= v);
        if n >= 2 {
            assert(run_by(b, r, pass, n)[0] == v[0]);
        }
    }
}

/// The verdicts that an oracle gives make a run that a search can record,
/// and the search is over exactly after `run_length` of them.
pub proof fn lemma_run_by_valid(b: Bound, r: nat, pass: spec_fn(int) -> bool, n: nat)
    requires
        n <= run_length(b, r, pass),
        b == Bound::Upper ==> r >= 1,
    ensures
        valid_run(b, r, run_by(b, r, pass, n)),
        finished(b, r, run_by(b, r, pass, n)) <==> n == run_length(b, r, pass),
    decreases n,
{
    lemma_pow2_facts(r);
    lemma_run_by_shape(b, r, pass, n);
    if n >= 1 {
        lemma_run_by_valid(b, r, pass, (n - 1) as nat);
        lemma_run_by_shape(b, r, pass, (n - 1) as nat);
    }
}

proof fn lemma_monotone_steps(
    b: Bound,
    r: nat,
    p1: spec_fn(int) -> bool,
    p2: spec_fn(int) -> bool,
    n: nat,
)
    requires
        forall|c: int| #[trigger] p1(c) ==> p2(c),
        n <= r,
        b == Bound::Upper ==> n >= 1 && r >= 1 && !p1(2 * scale(r)) && !p2(2 * scale(r)),
    ensures
        ({
            let t1 = trace(b, r, run_by(b, r, p1, n));
            let t2 = trace(b, r, run_by(b, r, p2, n));
            let gap = if b == Bound::Lower {
                t1.0 - t2.0
            } else {
                t2.0 - t1.0
            };
            &&& t1.1 == t2.1
            &&& b == Bound::Lower ==> t1.1 + n == r
            &&& b == Bound::Upper ==> t1.1 + n == r + 1
            &&& (gap == 0 || gap >= 4 * pow2(t1.1))
        }),
    decreases n,
{
    lemma_pow2_facts(r);
    lemma_run_by_shape(b, r, p1, n);
    lemma_run_by_shape(b, r, p2, n);
    if b == Bound::Upper && n == 1 {
        let e: Seq<bool> = Seq::empty();
        assert(run_by(b, r, p1, 0) == e);
        assert(run_by(b, r, p2, 0) == e);
        assert(pow2(r + 3) == 2 * scale(r));
        assert(run_by(b, r, p1, 1) =~= seq![false]);
        assert(run_by(b, r, p2, 1) =~= seq![false]);
        assert(seq![false].drop_last() =~= e);
        lemma_pow2_unfold(r + 1);
    } else if n > 0 {
        let m = (n - 1) as nat;
        lemma_monotone_steps(b, r, p1, p2, m);
        let v1 = run_by(b, r, p1, m);
        let v2 = run_by(b, r, p2, m);
        lemma_run_by_shape(b, r, p1, m);
        lemma_run_by_shape(b, r, p2, m);
        let k = trace(b, r, v1).1;
        assert(k >= 1);
        lemma_pow2_unfold(k);
        let c1 = trace(b, r, v1).0;
        let c2 = trace(b, r, v2).0;
        if c1 == c2 {
            if p1(c1) {
                assert(p2(c2));
            }
        }
    }
}

/// Law: a circuit that passes more often never gets a narrower margin.  When
/// every value that passes the first judge also passes the second, the upper
/// bound found with the second is at least the one found with the first, and
/// the lower bound found with the second is at most the one found with the
/// first.
pub proof fn lemma_margin_monotone(b: Bound, r: nat, p1: spec_fn(int) -> bool, p2: spec_fn(int) -> bool)
    requires
        forall|c: int| #[trigger] p1(c) ==> p2(c),
        b == Bound::Upper ==> r >= 1,
    ensures
        b == Bound::Upper ==> margin_found(b, r, p1) <= margin_found(b, r, p2),
        b == Bound::Lower ==> margin_found(b, r, p1) >= margin_found(b, r, p2),
{
    lemma_pow2_facts(r);
    match b {
        Bound::Lower => {
            lemma_monotone_steps(b, r, p1, p2, r);
        },
        Bound::Upper => {
            let top = 2 * scale(r);
            if p1(top) {
                assert(p2(top));
                lemma_run_by_shape(b, r, p1, 1);
                lemma_run_by_shape(b, r, p2, 1);
                assert(run_by(b, r, p1, 0) =~= Seq::<bool>::empty());
                assert(run_by(b, r, p2, 0) =~= Seq::<bool>::empty());
            } else if p2(top) {
                lemma_run_by_shape(b, r, p2, 1);
                assert(run_by(b, r, p2, 0) =~= Seq::<bool>::empty());
                lemma_run_by_valid(b, r, p1, r);
                lemma_finished_in_range(b, r, run_by(b, r, p1, r));
            } else {
                lemma_monotone_steps(b, r, p1, p2, r);
            }
        },
    }
}

} // verus!
