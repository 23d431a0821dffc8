//! The outcome of a search by bisection is unique.
use vstd::prelude::*;

use crate::dichotomy::{
    is_bisection, is_diagnosed, is_diagnosis, is_off, is_reached, is_solution, is_start, Bracket,
    DichotomyError, MAX_BISECTIONS,
};
use crate::number::{is_deterministic, Real};

verus! {

/// The function whose values are `f` has one value at each point.
pub open spec fn is_function<T>(f: spec_fn(T, T) -> bool) -> bool {
    forall|x: T, y: T, z: T| #[trigger] f(x, y) && #[trigger] f(x, z) ==> y == z
}

/// One bisection leads to one state.
proof fn lemma_bisection_unique<T: Real>(
    increasing: bool,
    f: spec_fn(T, T) -> bool,
    target: T,
    p: Bracket<T>,
    s: Bracket<T>,
    t: Bracket<T>,
)
    requires
        is_deterministic::<T>(),
        is_function(f),
        is_bisection(increasing, f, target, p, s),
        is_bisection(increasing, f, target, p, t),
    ensures
        s == t,
{
}

/// The search is in one state after `n` bisections.
pub proof fn law_state_unique<T: Real>(
    increasing: bool,
    f: spec_fn(T, T) -> bool,
    lower_r: T,
    upper_r: T,
    target: T,
    n: nat,
    s: Bracket<T>,
    t: Bracket<T>,
)
    requires
        is_deterministic::<T>(),
        is_function(f),
        is_reached(increasing, f, lower_r, upper_r, target, n, s),
        is_reached(increasing, f, lower_r, upper_r, target, n, t),
    ensures
        s == t,
    decreases n,
{
    if n == 0 {
        assert(is_start(lower_r, upper_r, s) && is_start(lower_r, upper_r, t));
    } else {
        let p = choose|p: Bracket<T>|
            is_reached(increasing, f, lower_r, upper_r, target, (n - 1) as nat, p)
                && #[trigger] is_bisection(increasing, f, target, p, s);
        let q = choose|q: Bracket<T>|
            is_reached(increasing, f, lower_r, upper_r, target, (n - 1) as nat, q)
                && #[trigger] is_bisection(increasing, f, target, q, t);
        law_state_unique(increasing, f, lower_r, upper_r, target, (n - 1) as nat, p, q);
        lemma_bisection_unique(increasing, f, target, p, s, t);
    }
}

/// The search has not stopped at a state after which there is another: the function is off the target
/// there.
proof fn lemma_off_before<T: Real>(
    increasing: bool,
    f: spec_fn(T, T) -> bool,
    lower_r: T,
    upper_r: T,
    target: T,
    m: nat,
    p: Bracket<T>,
    n: nat,
    s: Bracket<T>,
    y: T,
)
    requires
        is_deterministic::<T>(),
        is_function(f),
        m < n,
        is_reached(increasing, f, lower_r, upper_r, target, m, p),
        is_reached(increasing, f, lower_r, upper_r, target, n, s),
        f(p.middle, y),
    ensures
        !is_off(target, y, false),
    decreases n,
{
    let q = choose|q: Bracket<T>|
        is_reached(increasing, f, lower_r, upper_r, target, (n - 1) as nat, q)
            && #[trigger] is_bisection(increasing, f, target, q, s);
    if m == n - 1 {
        law_state_unique(increasing, f, lower_r, upper_r, target, m, p, q);
    } else {
        lemma_off_before(increasing, f, lower_r, upper_r, target, m, p, (n - 1) as nat, q, y);
    }
}

/// What is wrong with the interval is unique.
proof fn lemma_diagnosis_unique<T: Real>(
    increasing: bool,
    f: spec_fn(T, T) -> bool,
    lower_r: T,
    upper_r: T,
    target: T,
    a: Option<DichotomyError>,
    b: Option<DichotomyError>,
)
    requires
        is_deterministic::<T>(),
        is_function(f),
        is_diagnosed(increasing, f, lower_r, upper_r, target, a),
        is_diagnosed(increasing, f, lower_r, upper_r, target, b),
    ensures
        a == b,
{
    let (al, au) = choose|al: T, au: T|
        #![trigger is_diagnosis(increasing, al, au, target, a)]
        f(lower_r, al) && f(upper_r, au) && is_diagnosis(increasing, al, au, target, a);
    let (bl, bu) = choose|bl: T, bu: T|
        #![trigger is_diagnosis(increasing, bl, bu, target, b)]
        f(lower_r, bl) && f(upper_r, bu) && is_diagnosis(increasing, bl, bu, target, b);
    assert(al == bl && au == bu);
}

/// The search for a root has one outcome.
pub proof fn law_solution_unique<T: Real>(
    increasing: bool,
    f: spec_fn(T, T) -> bool,
    lower_r: T,
    upper_r: T,
    target: T,
    a: Result<T, DichotomyError>,
    b: Result<T, DichotomyError>,
)
    requires
        is_deterministic::<T>(),
        is_function(f),
        is_solution(increasing, f, lower_r, upper_r, target, a),
        is_solution(increasing, f, lower_r, upper_r, target, b),
    ensures
        a == b,
{
    let da = diagnosis_of(a);
    let db = diagnosis_of(b);
    if a != Err::<T, DichotomyError>(DichotomyError::EmptyInterval) && b != Err::<
        T,
        DichotomyError,
    >(DichotomyError::EmptyInterval) {
        lemma_diagnosis_unique(increasing, f, lower_r, upper_r, target, da, db);
        if da is None {
            let (m, p) = end_of(increasing, f, lower_r, upper_r, target, a);
            let (n, q) = end_of(increasing, f, lower_r, upper_r, target, b);
            if m == n {
                law_state_unique(increasing, f, lower_r, upper_r, target, m, p, q);
            }
            if m < n {
                let y = choose|y: T| f(p.middle, y) && is_off(target, y, false);
                lemma_off_before(increasing, f, lower_r, upper_r, target, m, p, n, q, y);
            }
            if n < m {
                let y = choose|y: T| f(q.middle, y) && is_off(target, y, false);
                lemma_off_before(increasing, f, lower_r, upper_r, target, n, q, m, p, y);
            }
        }
    }
}

/// What the outcome of a search says of the interval.
spec fn diagnosis_of<T>(res: Result<T, DichotomyError>) -> Option<DichotomyError> {
    match res {
        Ok(_) => None,
        Err(DichotomyError::NoConvergence) => None,
        Err(error) => Some(error),
    }
}

/// The state that the search ended with, and after how many bisections.
proof fn end_of<T: Real>(
    increasing: bool,
    f: spec_fn(T, T) -> bool,
    lower_r: T,
    upper_r: T,
    target: T,
    res: Result<T, DichotomyError>,
) -> (end: (nat, Bracket<T>))
    requires
        is_solution(increasing, f, lower_r, upper_r, target, res),
        res is Ok || res == Err::<T, DichotomyError>(DichotomyError::NoConvergence),
    ensures
        is_reached(increasing, f, lower_r, upper_r, target, end.0, end.1),
        match res {
            Ok(x) => end.0 <= MAX_BISECTIONS && end.1.middle == x && exists|y: T|
                f(x, y) && is_off(target, y, false),
            Err(_) => end.0 == MAX_BISECTIONS + 1,
        },
{
    match res {
        Ok(x) => {
            let (n, s, y) = choose|n: nat, s: Bracket<T>, y: T|
                #![trigger is_reached(increasing, f, lower_r, upper_r, target, n, s), is_off(target, y, false)]
                n <= MAX_BISECTIONS && is_reached(increasing, f, lower_r, upper_r, target, n, s)
                    && s.middle == x && f(x, y) && is_off(target, y, false);
            assert(f(x, y) && is_off(target, y, false));
            (n, s)
        },
        Err(_) => {
            let (n, s) = choose|n: nat, s: Bracket<T>|
                n == MAX_BISECTIONS + 1 && is_reached(
                    increasing,
                    f,
                    lower_r,
                    upper_r,
                    target,
                    n,
                    s,
                );
            (n, s)
        },
    }
}

} // verus!
