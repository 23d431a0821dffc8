//! Root finding by bisection.
use vstd::prelude::*;

use crate::number::{
    is_at_most, is_below, is_diff, is_greater_of, is_lesser_of, is_magnitude, is_midpoint, is_one,
    is_ratio, midpoint, Real,
};

verus! {

/// The number of bisections after which the search is given up.
pub const MAX_BISECTIONS: u32 = 100;

/// Why a search for a root ended without one.
#[derive(Clone, Copy, Debug, PartialEq, Eq, Structural)]
pub enum DichotomyError {
    /// The interval holds no point: its lower end is not below its upper end.
    EmptyInterval,
    /// The target lies outside the values that the function takes at the two ends.
    TargetOutOfRange,
    /// The function was said to increase, and its value at the upper end is the lower one.
    NotIncreasing,
    /// The function was said to decrease, and its value at the upper end is the greater one.
    NotDecreasing,
    /// The tolerance was not reached in [`MAX_BISECTIONS`] bisections.
    NoConvergence,
}

/// A state of the search: the interval that is left and the point of it that is tried next.
pub struct Bracket<T> {
    pub lower: T,
    pub upper: T,
    pub middle: T,
}

/// Asked whether `x` lies between `a` and `b`, the arithmetic answered `r`.
pub open spec fn is_between<T: Real>(a: T, x: T, b: T, r: bool) -> bool {
    if r {
        is_at_most(a, x, true) && is_at_most(x, b, true)
    } else {
        is_at_most(a, x, false) || is_at_most(x, b, false)
    }
}

/// Asked whether `y` is further than the tolerance, 0.00001, from `target`, the
/// arithmetic answered `r`.
pub open spec fn is_off<T: Real>(target: T, y: T, r: bool) -> bool {
    exists|d: T, gap: T, tolerance: T|
        is_diff(target, y, d) && is_magnitude(d, gap) && is_ratio(1, 100000, tolerance) && is_below(
            tolerance,
            gap,
            r,
        )
}

/// The search starts on the whole interval. It tries 1 first where 1 lies in the interval,
/// and otherwise the midpoint.
pub open spec fn is_start<T: Real>(lower_r: T, upper_r: T, s: Bracket<T>) -> bool {
    &&& s.lower == lower_r
    &&& s.upper == upper_r
    &&& {
        ||| is_one(s.middle) && is_between(lower_r, s.middle, upper_r, true)
        ||| is_midpoint(lower_r, upper_r, s.middle) && exists|one: T|
            is_one(one) && is_between(lower_r, one, upper_r, false)
    }
}

/// One bisection: the function, whose values are `f`, is off the target at the point tried,
/// and the half of the interval in which the root must lie is kept.
pub open spec fn is_bisection<T: Real>(
    increasing: bool,
    f: spec_fn(T, T) -> bool,
    target: T,
    s: Bracket<T>,
    t: Bracket<T>,
) -> bool {
    exists|y: T, above: bool|
        f(s.middle, y) && is_off(target, y, true) && is_below(target, y, above) && (if increasing
            == above {
            t.lower == s.lower && t.upper == s.middle
        } else {
            t.lower == s.middle && t.upper == s.upper
        }) && is_midpoint(t.lower, t.upper, t.middle)
}

/// `s` is a state that the search can be in after `n` bisections.
pub open spec fn is_reached<T: Real>(
    increasing: bool,
    f: spec_fn(T, T) -> bool,
    lower_r: T,
    upper_r: T,
    target: T,
    n: nat,
    s: Bracket<T>,
) -> bool
    decreases n,
{
    if n == 0 {
        is_start(lower_r, upper_r, s)
    } else {
        exists|p: Bracket<T>|
            is_reached(increasing, f, lower_r, upper_r, target, (n - 1) as nat, p)
                && #[trigger] is_bisection(increasing, f, target, p, s)
    }
}

/// With the values `f_low` and `f_up` at the ends of the interval, the target is out of range:
/// it is above the greater or below the lesser of the two.
pub open spec fn is_out_of_range<T: Real>(f_low: T, f_up: T, target: T, r: bool) -> bool {
    exists|most: T, least: T|
        is_greater_of(f_low, f_up, most) && is_lesser_of(f_up, f_low, least) && (if r {
            is_below(most, target, true) || is_below(target, least, true)
        } else {
            is_below(most, target, false) && is_below(target, least, false)
        })
}

/// `error` is what is wrong with the interval, with values `f_low` and `f_up` at its ends;
/// `None` where nothing is.
pub open spec fn is_diagnosis<T: Real>(
    increasing: bool,
    f_low: T,
    f_up: T,
    target: T,
    error: Option<DichotomyError>,
) -> bool {
    match error {
        Some(DichotomyError::TargetOutOfRange) => is_out_of_range(f_low, f_up, target, true),
        Some(DichotomyError::NotIncreasing) => {
            &&& is_out_of_range(f_low, f_up, target, false)
            &&& increasing
            &&& is_below(f_up, f_low, true)
        },
        Some(DichotomyError::NotDecreasing) => {
            &&& is_out_of_range(f_low, f_up, target, false)
            &&& !increasing
            &&& is_below(f_low, f_up, true)
        },
        Some(_) => false,
        None => {
            &&& is_out_of_range(f_low, f_up, target, false)
            &&& increasing ==> is_below(f_up, f_low, false)
            &&& !increasing ==> is_below(f_low, f_up, false)
        },
    }
}

/// The values of the function at the ends of the interval are such that `error` is what is
/// wrong with the interval.
pub open spec fn is_diagnosed<T: Real>(
    increasing: bool,
    f: spec_fn(T, T) -> bool,
    lower_r: T,
    upper_r: T,
    target: T,
    error: Option<DichotomyError>,
) -> bool {
    exists|f_low: T, f_up: T|
        #![trigger is_diagnosis(increasing, f_low, f_up, target, error)]
        f(lower_r, f_low) && f(upper_r, f_up) && is_diagnosis(
            increasing,
            f_low,
            f_up,
            target,
            error,
        )
}

/// `x` was reached by the search in at most [`MAX_BISECTIONS`] bisections, and there the
/// function is within the tolerance of the target.
pub open spec fn is_root<T: Real>(
    increasing: bool,
    f: spec_fn(T, T) -> bool,
    lower_r: T,
    upper_r: T,
    target: T,
    x: T,
) -> bool {
    exists|n: nat, s: Bracket<T>, y: T|
        #![trigger is_reached(increasing, f, lower_r, upper_r, target, n, s), is_off(target, y, false)]
        n <= MAX_BISECTIONS && is_reached(increasing, f, lower_r, upper_r, target, n, s)
            && s.middle == x && f(x, y) && is_off(target, y, false)
}

/// `res` is the outcome of the search for a point of `lower_r .. upper_r` at which the function
/// whose values are `f` takes the value `target`.
pub open spec fn is_solution<T: Real>(
    increasing: bool,
    f: spec_fn(T, T) -> bool,
    lower_r: T,
    upper_r: T,
    target: T,
    res: Result<T, DichotomyError>,
) -> bool {
    match res {
        Err(DichotomyError::EmptyInterval) => is_at_most(upper_r, lower_r, true),
        Err(DichotomyError::NoConvergence) => {
            &&& is_at_most(upper_r, lower_r, false)
            &&& is_diagnosed(increasing, f, lower_r, upper_r, target, None)
            &&& exists|n: nat, s: Bracket<T>|
                n == MAX_BISECTIONS + 1 && is_reached(
                    increasing,
                    f,
                    lower_r,
                    upper_r,
                    target,
                    n,
                    s,
                )
        },
        Err(error) => {
            &&& is_at_most(upper_r, lower_r, false)
            &&& is_diagnosed(increasing, f, lower_r, upper_r, target, Some(error))
        },
        Ok(x) => {
            &&& is_at_most(upper_r, lower_r, false)
            &&& is_diagnosed(increasing, f, lower_r, upper_r, target, None)
            &&& is_root(increasing, f, lower_r, upper_r, target, x)
        },
    }
}

/// The values that the executable function `f` may take: `f(x)` may be `y`.
pub open spec fn values_of<T, F: Fn(T) -> T>(f: F) -> spec_fn(T, T) -> bool {
    |x: T, y: T| call_ensures(f, (x,), y)
}

fn off<T: Real>(target: T, y: T) -> (r: bool)
    ensures
        is_off(target, y, r),
{
    let gap = target.minus(y).magnitude();
    T::ratio(1, 100000).below(gap)
}

fn start<T: Real>(lower_r: T, upper_r: T) -> (s: Bracket<T>)
    ensures
        is_start(lower_r, upper_r, s),
{
    let one = T::one();
    if lower_r.at_most(one) && one.at_most(upper_r) {
        Bracket { lower: lower_r, upper: upper_r, middle: one }
    } else {
        assert(is_between(lower_r, one, upper_r, false));
        Bracket { lower: lower_r, upper: upper_r, middle: midpoint(lower_r, upper_r) }
    }
}

fn diagnose<T: Real>(increasing: bool, f_low: T, f_up: T, target: T) -> (error: Option<
    DichotomyError,
>)
    ensures
        is_diagnosis(increasing, f_low, f_up, target, error),
{
    let most = f_low.greater_of(f_up);
    let least = f_up.lesser_of(f_low);
    if most.below(target) || target.below(least) {
        return Some(DichotomyError::TargetOutOfRange);
    }
    assert(is_out_of_range(f_low, f_up, target, false));
    if increasing {
        if f_up.below(f_low) {
            return Some(DichotomyError::NotIncreasing);
        }
    } else if f_low.below(f_up) {
        return Some(DichotomyError::NotDecreasing);
    }
    None
}

/// Searches a root of `f(x) = target` between `lower_r` and `upper_r`. The flag `increasing`
/// specifies the variation of `f`: true means increasing.
pub fn dichotomy_solver<T: Real, F: Fn(T) -> T>(
    increasing: bool,
    f: F,
    lower_r: T,
    upper_r: T,
    target: T,
) -> (res: Result<T, DichotomyError>)
    requires
        forall|x: T| call_requires(f, (x,)),
    ensures
        is_solution(increasing, values_of(f), lower_r, upper_r, target, res),
{
    if upper_r.at_most(lower_r) {
        return Err(DichotomyError::EmptyInterval);
    }
    let ghost values = values_of(f);
    let f_low = f(lower_r);
    let f_up = f(upper_r);
    let error = diagnose(increasing, f_low, f_up, target);
    assert(values(lower_r, f_low) && values(upper_r, f_up));
    assert(is_diagnosed(increasing, values, lower_r, upper_r, target, error));
    if let Some(e) = error {
        return Err(e);
    }
    let mut s = start(lower_r, upper_r);
    let mut nbiter: u32 = 0;
    loop
        invariant
            forall|x: T| call_requires(f, (x,)),
            values == values_of(f),
            is_at_most(upper_r, lower_r, false),
            is_diagnosed(increasing, values, lower_r, upper_r, target, None),
            nbiter <= MAX_BISECTIONS,
            is_reached(increasing, values, lower_r, upper_r, target, nbiter as nat, s),
        decreases MAX_BISECTIONS - nbiter,
    {
        let y = f(s.middle);
        assert(values(s.middle, y));
        if !off(target, y) {
            assert(is_root(increasing, values, lower_r, upper_r, target, s.middle));
            return Ok(s.middle);
        }
        let above = target.below(y);
        let (lower, upper) = if increasing == above {
            (s.lower, s.middle)
        } else {
            (s.middle, s.upper)
        };
        let next = Bracket { lower, upper, middle: midpoint(lower, upper) };
        assert(is_bisection(increasing, values, target, s, next));
        nbiter = nbiter + 1;
        assert(is_reached(increasing, values, lower_r, upper_r, target, nbiter as nat, next));
        if nbiter > MAX_BISECTIONS {
            return Err(DichotomyError::NoConvergence);
        }
        s = next;
    }
}

/// Asked for the value of the function at `x`, whose values are `f`, and whether it is above
/// the target, the answer was `above`.
pub open spec fn is_seen<T: Real>(
    f: spec_fn(T, T) -> bool,
    target: T,
    x: T,
    above: bool,
) -> bool {
    exists|y: T| f(x, y) && is_below(target, y, above)
}

/// The search keeps the target between the values at the ends of the interval: an end that was
/// moved is a point at which the function was seen on that end's side of the target.
pub proof fn law_ends_enclose_target<T: Real>(
    increasing: bool,
    f: spec_fn(T, T) -> bool,
    lower_r: T,
    upper_r: T,
    target: T,
    n: nat,
    s: Bracket<T>,
)
    requires
        is_reached(increasing, f, lower_r, upper_r, target, n, s),
    ensures
        s.lower == lower_r || is_seen(f, target, s.lower, !increasing),
        s.upper == upper_r || is_seen(f, target, s.upper, increasing),
    decreases n,
{
    if n > 0 {
        let p = choose|p: Bracket<T>|
            is_reached(increasing, f, lower_r, upper_r, target, (n - 1) as nat, p)
                && #[trigger] is_bisection(increasing, f, target, p, s);
        law_ends_enclose_target(increasing, f, lower_r, upper_r, target, (n - 1) as nat, p);
    }
}

/// `a <= b`, as the arithmetic answers.
pub open spec fn le<T: Real>(a: T, b: T) -> bool {
    is_at_most(a, b, true)
}

/// On the interval the arithmetic compares as numbers compare, and the midpoint of two points
/// lies between them. (The midpoint does not where the sum of the points overflows.)
pub open spec fn is_orderly<T: Real>(lower_r: T, upper_r: T) -> bool {
    &&& forall|a: T, b: T, c: T| #[trigger] le(a, b) && #[trigger] le(b, c) ==> le(a, c)
    &&& le(lower_r, lower_r)
    &&& le(upper_r, upper_r)
    &&& is_at_most(upper_r, lower_r, false) ==> le(lower_r, upper_r)
    &&& forall|a: T, b: T, m: T|
        #![trigger is_midpoint(a, b, m)]
        le(lower_r, a) && le(a, b) && le(b, upper_r) && is_midpoint(a, b, m) ==> le(a, m) && le(
            m,
            b,
        )
}

/// Every state of the search is an interval inside the one that was given, and the point to be
/// tried lies in it.
pub proof fn law_search_stays_inside<T: Real>(
    increasing: bool,
    f: spec_fn(T, T) -> bool,
    lower_r: T,
    upper_r: T,
    target: T,
    n: nat,
    s: Bracket<T>,
)
    requires
        is_orderly(lower_r, upper_r),
        is_at_most(upper_r, lower_r, false),
        is_reached(increasing, f, lower_r, upper_r, target, n, s),
    ensures
        le(lower_r, s.lower),
        le(s.lower, s.middle),
        le(s.middle, s.upper),
        le(s.upper, upper_r),
    decreases n,
{
    if n > 0 {
        let p = choose|p: Bracket<T>|
            is_reached(increasing, f, lower_r, upper_r, target, (n - 1) as nat, p)
                && #[trigger] is_bisection(increasing, f, target, p, s);
        law_search_stays_inside(increasing, f, lower_r, upper_r, target, (n - 1) as nat, p);
        assert(le(s.lower, s.upper));
        assert(le(lower_r, s.lower));
        assert(le(s.upper, upper_r));
    } else {
        assert(le(lower_r, upper_r));
    }
}

/// A root that is found lies between `lower_r` and `upper_r`.
pub proof fn law_root_inside<T: Real>(
    increasing: bool,
    f: spec_fn(T, T) -> bool,
    lower_r: T,
    upper_r: T,
    target: T,
    x: T,
)
    requires
        is_orderly(lower_r, upper_r),
        is_solution(increasing, f, lower_r, upper_r, target, Ok(x)),
    ensures
        le(lower_r, x),
        le(x, upper_r),
{
    let (n, s, y) = choose|n: nat, s: Bracket<T>, y: T|
        #![trigger is_reached(increasing, f, lower_r, upper_r, target, n, s), is_off(target, y, false)]
        n <= MAX_BISECTIONS && is_reached(increasing, f, lower_r, upper_r, target, n, s)
            && s.middle == x && f(x, y) && is_off(target, y, false);
    law_search_stays_inside(increasing, f, lower_r, upper_r, target, n, s);
    assert(le(s.lower, s.middle) && le(lower_r, s.middle) && le(s.middle, upper_r));
}

/// A state that is reached with the values `f` is reached with the values `g`, where `g` admits
/// them too.
proof fn lemma_reached_wider<T: Real>(
    increasing: bool,
    f: spec_fn(T, T) -> bool,
    g: spec_fn(T, T) -> bool,
    lower_r: T,
    upper_r: T,
    target: T,
    n: nat,
    s: Bracket<T>,
)
    requires
        forall|x: T, y: T| #[trigger] f(x, y) ==> g(x, y),
        is_reached(increasing, f, lower_r, upper_r, target, n, s),
    ensures
        is_reached(increasing, g, lower_r, upper_r, target, n, s),
    decreases n,
{
    if n > 0 {
        let p = choose|p: Bracket<T>|
            is_reached(increasing, f, lower_r, upper_r, target, (n - 1) as nat, p)
                && #[trigger] is_bisection(increasing, f, target, p, s);
        lemma_reached_wider(increasing, f, g, lower_r, upper_r, target, (n - 1) as nat, p);
        assert(is_bisection(increasing, g, target, p, s));
    }
}

/// An outcome of the search with the values `f` is one with the values `g`, where `g` admits
/// them too.
pub proof fn lemma_solution_wider<T: Real>(
    increasing: bool,
    f: spec_fn(T, T) -> bool,
    g: spec_fn(T, T) -> bool,
    lower_r: T,
    upper_r: T,
    target: T,
    res: Result<T, DichotomyError>,
)
    requires
        forall|x: T, y: T| #[trigger] f(x, y) ==> g(x, y),
        is_solution(increasing, f, lower_r, upper_r, target, res),
    ensures
        is_solution(increasing, g, lower_r, upper_r, target, res),
{
    match res {
        Ok(x) => {
            let (n, s, y) = choose|n: nat, s: Bracket<T>, y: T|
                #![trigger is_reached(increasing, f, lower_r, upper_r, target, n, s), is_off(target, y, false)]
                n <= MAX_BISECTIONS && is_reached(increasing, f, lower_r, upper_r, target, n, s)
                    && s.middle == x && f(x, y) && is_off(target, y, false);
            lemma_reached_wider(increasing, f, g, lower_r, upper_r, target, n, s);
            assert(g(x, y));
        },
        Err(DichotomyError::NoConvergence) => {
            let (n, s) = choose|n: nat, s: Bracket<T>|
                n == MAX_BISECTIONS + 1 && is_reached(
                    increasing,
                    f,
                    lower_r,
                    upper_r,
                    target,
                    n,
                    s,
                );
            lemma_reached_wider(increasing, f, g, lower_r, upper_r, target, n, s);
        },
        Err(_) => {},
    }
}

} // verus!
