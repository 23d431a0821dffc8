//! The search for a root in exact arithmetic.
use vstd::prelude::*;

use crate::dichotomy::{
    dichotomy_solver, is_bisection, is_diagnosed, is_diagnosis, is_off, is_out_of_range, is_reached,
    is_root, is_start, values_of, Bracket, DichotomyError, MAX_BISECTIONS,
};
use crate::exact::is_exact;
use crate::number::{
    is_below, is_diff, is_greater_of, is_lesser_of, is_magnitude, is_midpoint, is_prod, is_ratio,
    is_sum, Real,
};

verus! {

/// The greater and the lesser of two numbers are exact.
pub open spec fn has_extremes<T: Real>(v: spec_fn(T) -> real) -> bool {
    &&& forall|a: T, b: T, r: T| #[trigger]
        is_greater_of(a, b, r) ==> v(r) == (if v(a) < v(b) {
            v(b)
        } else {
            v(a)
        })
    &&& forall|a: T, b: T, r: T| #[trigger]
        is_lesser_of(a, b, r) ==> v(r) == (if v(a) < v(b) {
            v(a)
        } else {
            v(b)
        })
}

/// The function whose values are `f` has the values of the function `g` of real numbers.
pub open spec fn has_values<T>(
    v: spec_fn(T) -> real,
    f: spec_fn(T, T) -> bool,
    g: spec_fn(real) -> real,
) -> bool {
    forall|x: T, y: T| #[trigger] f(x, y) ==> v(y) == g(v(x))
}

/// The numbers are at most 0.00001 apart.
pub open spec fn is_close(a: real, b: real) -> bool {
    -(1 as real) <= (a - b) * (100000 as real) <= 1 as real
}

/// The mean of two values.
pub proof fn law_midpoint_exact<W: Real>(v: spec_fn(W) -> real, a: W, b: W, m: W)
    requires
        is_exact(v),
        is_midpoint(a, b, m),
    ensures
        v(m) * (2 as real) == v(a) + v(b),
{
    let (s, half) = choose|s: W, half: W|
        is_sum(a, b, s) && is_ratio(1, 2, half) && is_prod(s, half, m);
    let (x, h) = (v(s), v(half));
    assert((x * h) * (2 as real) == x) by (nonlinear_arith)
        requires
            h * (2 as real) == 1 as real,
    ;
}

pub proof fn lemma_off<T: Real>(v: spec_fn(T) -> real, target: T, y: T, r: bool)
    requires
        is_exact(v),
        is_off(target, y, r),
    ensures
        r == !is_close(v(y), v(target)),
{
    let (d, gap, tolerance) = choose|d: T, gap: T, tolerance: T|
        is_diff(target, y, d) && is_magnitude(d, gap) && is_ratio(1, 100000, tolerance) && is_below(
            tolerance,
            gap,
            r,
        );
    assert(v(tolerance) * (100000 as real) == 1 as real);
}

/// What is wrong with an interval, at whose ends the function has the values `a` and `b`.
pub open spec fn fault(increasing: bool, a: real, b: real, t: real) -> Option<DichotomyError> {
    if (a < t && b < t) || (t < a && t < b) {
        Some(DichotomyError::TargetOutOfRange)
    } else if increasing && b < a {
        Some(DichotomyError::NotIncreasing)
    } else if !increasing && a < b {
        Some(DichotomyError::NotDecreasing)
    } else {
        None
    }
}

pub proof fn lemma_diagnosed<T: Real>(
    v: spec_fn(T) -> real,
    g: spec_fn(real) -> real,
    increasing: bool,
    f: spec_fn(T, T) -> bool,
    lower_r: T,
    upper_r: T,
    target: T,
    error: Option<DichotomyError>,
)
    requires
        is_exact(v),
        has_extremes(v),
        has_values(v, f, g),
        is_diagnosed(increasing, f, lower_r, upper_r, target, error),
    ensures
        error == fault(increasing, g(v(lower_r)), g(v(upper_r)), v(target)),
{
    let (f_low, f_up) = choose|f_low: T, f_up: T|
        #![trigger is_diagnosis(increasing, f_low, f_up, target, error)]
        f(lower_r, f_low) && f(upper_r, f_up) && is_diagnosis(
            increasing,
            f_low,
            f_up,
            target,
            error,
        );
    let out = error == Some(DichotomyError::TargetOutOfRange);
    assert(is_out_of_range(f_low, f_up, target, out));
    let (most, least) = choose|most: T, least: T|
        is_greater_of(f_low, f_up, most) && is_lesser_of(f_up, f_low, least) && (if out {
            is_below(most, target, true) || is_below(target, least, true)
        } else {
            is_below(most, target, false) && is_below(target, least, false)
        });
}

/// 2 to the power `n`.
pub open spec fn two_to(n: nat) -> real
    decreases n,
{
    if n == 0 {
        1 as real
    } else {
        2 as real * two_to((n - 1) as nat)
    }
}

pub proof fn lemma_two_to_positive(n: nat)
    ensures
        two_to(n) >= 1 as real,
    decreases n,
{
    if n > 0 {
        lemma_two_to_positive((n - 1) as nat);
    }
}

/// Every state of the search is an interval inside the one that was given, with the point to be
/// tried in it. After the first, every bisection halves it, and the target stays between the values
/// at its ends.
pub proof fn lemma_state<T: Real>(
    v: spec_fn(T) -> real,
    g: spec_fn(real) -> real,
    increasing: bool,
    f: spec_fn(T, T) -> bool,
    lower_r: T,
    upper_r: T,
    target: T,
    n: nat,
    s: Bracket<T>,
)
    requires
        is_exact(v),
        has_values(v, f, g),
        v(lower_r) < v(upper_r),
        is_reached(increasing, f, lower_r, upper_r, target, n, s),
    ensures
        v(lower_r) <= v(s.lower) <= v(s.middle) <= v(s.upper) <= v(upper_r),
        v(lower_r) < 1 as real ==> v(lower_r) < v(s.middle) && v(lower_r) < v(s.upper),
        n > 0 ==> v(s.middle) * (2 as real) == v(s.lower) + v(s.upper),
        n > 0 ==> (v(s.upper) - v(s.lower)) * two_to((n - 1) as nat) <= v(upper_r) - v(lower_r),
        s.lower == lower_r || g(v(s.lower)) == v(target) || increasing == (g(v(s.lower)) < v(target)),
        s.upper == upper_r || g(v(s.upper)) == v(target) || increasing == (v(target) < g(v(s.upper))),
    decreases n,
{
    if n > 0 {
        let p = choose|p: Bracket<T>|
            is_reached(increasing, f, lower_r, upper_r, target, (n - 1) as nat, p)
                && #[trigger] is_bisection(increasing, f, target, p, s);
        lemma_state(v, g, increasing, f, lower_r, upper_r, target, (n - 1) as nat, p);
        let (y, above) = choose|y: T, above: bool|
            f(p.middle, y) && is_off(target, y, true) && is_below(target, y, above) && (if increasing
                == above {
                s.lower == p.lower && s.upper == p.middle
            } else {
                s.lower == p.middle && s.upper == p.upper
            }) && is_midpoint(s.lower, s.upper, s.middle);
        law_midpoint_exact(v, s.lower, s.upper, s.middle);
        assert(v(y) == g(v(p.middle)));
        let (was, left, whole) = (v(p.upper) - v(p.lower), v(s.upper) - v(s.lower), v(upper_r) - v(
            lower_r,
        ));
        if n > 1 {
            let m = two_to((n - 2) as nat);
            assert(left * (2 as real) == was);
            assert(left * (2 as real * m) <= whole) by (nonlinear_arith)
                requires
                    left * (2 as real) == was,
                    was * m <= whole,
            ;
        } else {
            assert(two_to(0) == 1 as real);
            assert(left * (1 as real) == left) by (nonlinear_arith);
        }
    } else {
        if is_midpoint(lower_r, upper_r, s.middle) {
            law_midpoint_exact(v, lower_r, upper_r, s.middle);
        }
    }
}

/// The state in which a root was found.
pub proof fn root_state<T: Real>(
    increasing: bool,
    f: spec_fn(T, T) -> bool,
    lower_r: T,
    upper_r: T,
    target: T,
    x: T,
) -> (r: (nat, Bracket<T>, T))
    requires
        is_root(increasing, f, lower_r, upper_r, target, x),
    ensures
        is_reached(increasing, f, lower_r, upper_r, target, r.0, r.1),
        r.1.middle == x,
        f(x, r.2),
        is_off(target, r.2, false),
{
    choose|n: nat, s: Bracket<T>, y: T|
        #![trigger is_reached(increasing, f, lower_r, upper_r, target, n, s), is_off(target, y, false)]
        n <= MAX_BISECTIONS && is_reached(increasing, f, lower_r, upper_r, target, n, s) && s.middle
            == x && f(x, y) && is_off(target, y, false)
}

/// The search for a root of `g(x) = target` between two ends. What is found is a point of the
/// interval at which the function is within 0.00001 of the target. Refused are an interval whose
/// lower end is not below its upper end, a target that is not between the values at the ends, and a
/// function whose values at the ends are not in the order that was claimed; in this order, and
/// nothing else before the search has begun.
pub proof fn law_dichotomy_solver<T: Real, F: Fn(T) -> T>(
    v: spec_fn(T) -> real,
    g: spec_fn(real) -> real,
    increasing: bool,
    f: F,
    lower_r: T,
    upper_r: T,
    target: T,
    res: Result<T, DichotomyError>,
)
    requires
        is_exact(v),
        has_extremes(v),
        forall|x: T, y: T| #[trigger] call_ensures(f, (x,), y) ==> v(y) == g(v(x)),
        call_ensures(dichotomy_solver::<T, F>, (increasing, f, lower_r, upper_r, target), res),
    ensures
        ({
            let (a, b, t) = (g(v(lower_r)), g(v(upper_r)), v(target));
            let empty = v(upper_r) <= v(lower_r);
            let outside = (a < t && b < t) || (t < a && t < b);
            let contrary = if increasing {
                b < a
            } else {
                a < b
            };
            &&& res == Err::<T, DichotomyError>(DichotomyError::EmptyInterval) <==> empty
            &&& res == Err::<T, DichotomyError>(DichotomyError::TargetOutOfRange) <==> !empty && outside
            &&& res == Err::<T, DichotomyError>(DichotomyError::NotIncreasing) <==> !empty && !outside && contrary
                && increasing
            &&& res == Err::<T, DichotomyError>(DichotomyError::NotDecreasing) <==> !empty && !outside && contrary
                && !increasing
            &&& res is Ok || res == Err::<T, DichotomyError>(DichotomyError::NoConvergence) <==> !empty && !outside
                && !contrary
        }),
        res matches Ok(x) ==> v(lower_r) <= v(x) <= v(upper_r) && -(1 as real) <= (g(v(x)) - v(target)) * (
        100000 as real) <= 1 as real,
{
    let values = values_of(f);
    assert(has_values(v, values, g));
    match res {
        Ok(x) => {
            lemma_diagnosed(v, g, increasing, values, lower_r, upper_r, target, None);
            let (n, s, y) = root_state(increasing, values, lower_r, upper_r, target, x);
            lemma_state(v, g, increasing, values, lower_r, upper_r, target, n, s);
            lemma_off(v, target, y, false);
        },
        Err(DichotomyError::EmptyInterval) => {},
        Err(DichotomyError::NoConvergence) => {
            lemma_diagnosed(v, g, increasing, values, lower_r, upper_r, target, None);
        },
        Err(error) => {
            lemma_diagnosed(v, g, increasing, values, lower_r, upper_r, target, Some(error));
        },
    }
}

/// The function varies by at most `slope` times the way between two points of the interval.
pub open spec fn is_bounded_slope(
    g: spec_fn(real) -> real,
    lower: real,
    upper: real,
    slope: real,
) -> bool {
    forall|x: real, y: real|
        lower <= x <= y <= upper ==> -(slope * (y - x)) <= #[trigger] g(y) - #[trigger] g(x) <= slope * (
        y - x)
}

/// The search succeeds on every interval that encloses the target, of a function that varies as was
/// claimed and whose slope is bounded: a hundred bisections, each but the first halving the
/// interval, reach the tolerance if `slope` times the length of the interval is at most 0.00001
/// times 2 to the power 99.
pub proof fn law_search_converges<T: Real, F: Fn(T) -> T>(
    v: spec_fn(T) -> real,
    g: spec_fn(real) -> real,
    slope: real,
    increasing: bool,
    f: F,
    lower_r: T,
    upper_r: T,
    target: T,
    res: Result<T, DichotomyError>,
)
    requires
        is_exact(v),
        has_extremes(v),
        forall|x: T, y: T| #[trigger] call_ensures(f, (x,), y) ==> v(y) == g(v(x)),
        v(lower_r) < v(upper_r),
        if increasing {
            g(v(lower_r)) <= v(target) <= g(v(upper_r))
        } else {
            g(v(upper_r)) <= v(target) <= g(v(lower_r))
        },
        slope >= 0 as real,
        is_bounded_slope(g, v(lower_r), v(upper_r), slope),
        (slope * (v(upper_r) - v(lower_r))) * (100000 as real) <= two_to(99),
        call_ensures(dichotomy_solver::<T, F>, (increasing, f, lower_r, upper_r, target), res),
    ensures
        res is Ok,
{
    let values = values_of(f);
    assert(has_values(v, values, g));
    law_dichotomy_solver(v, g, increasing, f, lower_r, upper_r, target, res);
    if res == Err::<T, DichotomyError>(DichotomyError::NoConvergence) {
        let (n, s) = choose|n: nat, s: Bracket<T>|
            n == MAX_BISECTIONS + 1 && is_reached(
                increasing,
                values,
                lower_r,
                upper_r,
                target,
                n,
                s,
            );
        let p = choose|p: Bracket<T>|
            is_reached(increasing, values, lower_r, upper_r, target, (n - 1) as nat, p)
                && #[trigger] is_bisection(increasing, values, target, p, s);
        let (y, above) = choose|y: T, above: bool|
            values(p.middle, y) && is_off(target, y, true) && is_below(target, y, above) && (
            if increasing == above {
                s.lower == p.lower && s.upper == p.middle
            } else {
                s.lower == p.middle && s.upper == p.upper
            }) && is_midpoint(s.lower, s.upper, s.middle);
        lemma_state(v, g, increasing, values, lower_r, upper_r, target, (n - 1) as nat, p);
        lemma_off(v, target, y, true);
        let (a, m, b, t) = (v(p.lower), v(p.middle), v(p.upper), v(target));
        let (lo, up) = (v(lower_r), v(upper_r));
        let e = g(m) - t;
        let reach = slope * (b - a);
        lemma_within_reach(g, lo, up, slope, increasing, a, m, b, t);
        let whole = slope * (up - lo);
        lemma_two_to_positive(99);
        let w = two_to(99);
        assert((b - a) * w <= up - lo);
        let gap = b - a;
        assert(reach * (100000 as real) <= 1 as real) by (nonlinear_arith)
            requires
                reach == slope * gap,
                gap * w <= up - lo,
                slope >= 0 as real,
                w >= 1 as real,
                whole == slope * (up - lo),
                whole * (100000 as real) <= w,
        {
            assert(reach * w == slope * (gap * w));
            assert(slope * (gap * w) <= slope * (up - lo));
            assert((reach * (100000 as real)) * w == (reach * w) * (100000 as real));
            assert((reach * (100000 as real)) * w <= (1 as real) * w);
        }
        assert(-(1 as real) <= e * (100000 as real) <= 1 as real);
    }
}

/// Between two points whose values enclose the target, the function is as near to it as the slope
/// allows.
proof fn lemma_within_reach(
    g: spec_fn(real) -> real,
    lo: real,
    up: real,
    slope: real,
    increasing: bool,
    a: real,
    m: real,
    b: real,
    t: real,
)
    requires
        is_bounded_slope(g, lo, up, slope),
        slope >= 0 as real,
        lo <= a <= m <= b <= up,
        if increasing {
            g(a) <= t <= g(b)
        } else {
            g(b) <= t <= g(a)
        },
    ensures
        -(slope * (b - a)) <= g(m) - t <= slope * (b - a),
{
    let (x, y) = (m - a, b - m);
    assert(-(slope * (m - a)) <= g(m) - g(a) <= slope * (m - a));
    assert(-(slope * (b - m)) <= g(b) - g(m) <= slope * (b - m));
    assert(slope * (m - a) <= slope * (b - a)) by (nonlinear_arith)
        requires
            slope >= 0 as real,
            m <= b,
    ;
    assert(slope * (b - m) <= slope * (b - a)) by (nonlinear_arith)
        requires
            slope >= 0 as real,
            a <= m,
    ;
}

/// A search that goes beyond its first point has found the function off the target there.
proof fn lemma_first_point_off<T: Real>(
    increasing: bool,
    f: spec_fn(T, T) -> bool,
    lower_r: T,
    upper_r: T,
    target: T,
    n: nat,
    s: Bracket<T>,
) -> (r: (Bracket<T>, T))
    requires
        n > 0,
        is_reached(increasing, f, lower_r, upper_r, target, n, s),
    ensures
        is_start(lower_r, upper_r, r.0),
        f(r.0.middle, r.1),
        is_off(target, r.1, true),
    decreases n,
{
    let p = choose|p: Bracket<T>|
        is_reached(increasing, f, lower_r, upper_r, target, (n - 1) as nat, p)
            && #[trigger] is_bisection(increasing, f, target, p, s);
    if n == 1 {
        let (y, above) = choose|y: T, above: bool|
            f(p.middle, y) && is_off(target, y, true) && is_below(target, y, above) && (if increasing
                == above {
                s.lower == p.lower && s.upper == p.middle
            } else {
                s.lower == p.middle && s.upper == p.upper
            }) && is_midpoint(s.lower, s.upper, s.middle);
        (p, y)
    } else {
        lemma_first_point_off(increasing, f, lower_r, upper_r, target, (n - 1) as nat, p)
    }
}

/// The first point of a search is 1 where 1 is in the interval, and otherwise the midpoint.
proof fn lemma_start_value<T: Real>(v: spec_fn(T) -> real, lower_r: T, upper_r: T, s: Bracket<T>)
    requires
        is_exact(v),
        is_start(lower_r, upper_r, s),
    ensures
        v(s.middle) == first_point(v(lower_r), v(upper_r)),
{
    if is_midpoint(lower_r, upper_r, s.middle) {
        law_midpoint_exact(v, lower_r, upper_r, s.middle);
    }
}

/// 1 where 1 is between the two numbers, and otherwise their mean.
pub open spec fn first_point(lower: real, upper: real) -> real {
    if lower <= 1 as real <= upper {
        1 as real
    } else {
        (lower + upper) / (2 as real)
    }
}

/// A search that succeeds finds 1, where 1 is in the interval and the function is there within
/// 0.00001 of the target; where 1 is not in the interval, it is so with the midpoint.
pub proof fn law_first_point_found<T: Real, F: Fn(T) -> T>(
    v: spec_fn(T) -> real,
    g: spec_fn(real) -> real,
    increasing: bool,
    f: F,
    lower_r: T,
    upper_r: T,
    target: T,
    res: Result<T, DichotomyError>,
)
    requires
        is_exact(v),
        forall|x: T, y: T| #[trigger] call_ensures(f, (x,), y) ==> v(y) == g(v(x)),
        is_close(g(first_point(v(lower_r), v(upper_r))), v(target)),
        call_ensures(dichotomy_solver::<T, F>, (increasing, f, lower_r, upper_r, target), res),
    ensures
        res matches Ok(x) ==> v(x) == first_point(v(lower_r), v(upper_r)),
        res != Err::<T, DichotomyError>(DichotomyError::NoConvergence),
{
    let values = values_of(f);
    assert(has_values(v, values, g));
    let (n, s) = match res {
        Ok(x) => {
            let (n, s, _) = root_state(increasing, values, lower_r, upper_r, target, x);
            (n, s)
        },
        Err(DichotomyError::NoConvergence) => choose|n: nat, s: Bracket<T>|
            n == MAX_BISECTIONS + 1 && is_reached(
                increasing,
                values,
                lower_r,
                upper_r,
                target,
                n,
                s,
            ),
        Err(_) => (0nat, Bracket { lower: lower_r, upper: upper_r, middle: lower_r }),
    };
    if n > 0 {
        let (p, y) = lemma_first_point_off(increasing, values, lower_r, upper_r, target, n, s);
        lemma_start_value(v, lower_r, upper_r, p);
        lemma_off(v, target, y, true);
        assert(v(y) == g(v(p.middle)));
    } else if res is Ok {
        lemma_start_value(v, lower_r, upper_r, s);
    }
}

} // verus!
