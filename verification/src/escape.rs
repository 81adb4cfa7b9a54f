//! The escape-time evaluator: how many steps of an iteration a point survives
//! before it leaves the bounded region.

use vstd::prelude::*;

verus! {

/// The iteration limit that a render uses unless it is told another.
pub const ITERATION_LIMIT: usize = 255;

/// The iteration whose escape time is measured, over points of type `Z`.
///
/// For the Mandelbrot set over the complex numbers, `origin` is `0`, `exceeds`
/// tells whether `|z|^2 > 4`, and `step` maps `(z, c)` to `z * z + c`.
pub struct Dynamics<Z, E, S> {
    /// Where every orbit starts.
    pub origin: Z,
    /// Whether a state has left the bounded region.
    pub exceeds: E,
    /// The next state, from the current state and the parameter.
    pub step: S,
}

/// The iteration as mathematics: what a [`Dynamics`] computes, where its
/// functions give one result for each argument.
#[verifier::reject_recursive_types(Z)]
pub ghost struct Iteration<Z> {
    /// Where every orbit starts.
    pub origin: Z,
    /// Whether a state has left the bounded region.
    pub exceeds: spec_fn(Z) -> bool,
    /// The next state, from the current state and the parameter.
    pub step: spec_fn(Z, Z) -> Z,
}

/// The `n`-th state of the orbit of `c`: `origin` advanced `n` times by `step`.
pub open spec fn orbit_at<Z>(rule: Iteration<Z>, c: Z, n: nat) -> Z
    decreases n,
{
    if n == 0 {
        rule.origin
    } else {
        (rule.step)(orbit_at(rule, c, (n - 1) as nat), c)
    }
}

/// `count` is the escape time of `c` within `limit` steps: the index of the
/// first state of its orbit that `exceeds` holds of, among the first `limit`
/// states, or `None` where it holds of none of them.
pub open spec fn is_escape_count<Z>(rule: Iteration<Z>, c: Z, limit: usize, count: Option<usize>) -> bool {
    match count {
        Some(k) => {
            &&& k < limit
            &&& (rule.exceeds)(orbit_at(rule, c, k as nat))
            &&& forall|j: nat| j < k ==> !(rule.exceeds)(#[trigger] orbit_at(rule, c, j))
        },
        None => forall|j: nat| j < limit ==> !(rule.exceeds)(#[trigger] orbit_at(rule, c, j)),
    }
}

/// The escape time of `c` within `limit` steps.
pub open spec fn escape_count<Z>(rule: Iteration<Z>, c: Z, limit: usize) -> Option<usize> {
    choose|count: Option<usize>| is_escape_count(rule, c, limit, count)
}

/// Every point has an escape time: the returned count fits the definition.
proof fn lemma_escape_count_exists<Z>(rule: Iteration<Z>, c: Z, limit: usize) -> (count: Option<usize>)
    ensures
        is_escape_count(rule, c, limit, count),
    decreases limit,
{
    if limit == 0 {
        None
    } else {
        let shorter = (limit - 1) as usize;
        match lemma_escape_count_exists(rule, c, shorter) {
            Some(k) => Some(k),
            None => {
                if (rule.exceeds)(orbit_at(rule, c, shorter as nat)) {
                    Some(shorter)
                } else {
                    None
                }
            },
        }
    }
}

/// A point has one escape time: two counts that both fit the definition are
/// equal.
pub proof fn lemma_escape_count_unique<Z>(
    rule: Iteration<Z>,
    c: Z,
    limit: usize,
    first: Option<usize>,
    second: Option<usize>,
)
    requires
        is_escape_count(rule, c, limit, first),
        is_escape_count(rule, c, limit, second),
    ensures
        first == second,
{
    match (first, second) {
        (Some(a), Some(b)) => {
            if a < b {
                assert(!(rule.exceeds)(orbit_at(rule, c, a as nat)));
            } else if b < a {
                assert(!(rule.exceeds)(orbit_at(rule, c, b as nat)));
            }
        },
        (Some(a), None) => {
            assert(!(rule.exceeds)(orbit_at(rule, c, a as nat)));
        },
        (None, Some(b)) => {
            assert(!(rule.exceeds)(orbit_at(rule, c, b as nat)));
        },
        (None, None) => {},
    }
}

/// [`escape_count`] is the escape time: it fits the definition, and it is the
/// only count that does.
pub proof fn lemma_escape_count_defined<Z>(rule: Iteration<Z>, c: Z, limit: usize)
    ensures
        is_escape_count(rule, c, limit, escape_count(rule, c, limit)),
        forall|count: Option<usize>| #[trigger]
            is_escape_count(rule, c, limit, count) ==> count == escape_count(rule, c, limit),
{
    lemma_escape_count_exists(rule, c, limit);
    assert forall|count: Option<usize>| #[trigger]
        is_escape_count(rule, c, limit, count) implies count == escape_count(rule, c, limit) by {
        lemma_escape_count_unique(rule, c, limit, count, escape_count(rule, c, limit));
    }
}

/// `dynamics` computes `rule`: it starts where `rule` starts, and every result
/// of its two functions is the one that `rule` gives for the same arguments.
pub open spec fn computes<Z, E: Fn(Z) -> bool, S: Fn(Z, Z) -> Z>(
    dynamics: Dynamics<Z, E, S>,
    rule: Iteration<Z>,
) -> bool {
    &&& dynamics.origin == rule.origin
    &&& forall|z: Z, b: bool| #[trigger] dynamics.exceeds.ensures((z,), b) ==> b == (rule.exceeds)(z)
    &&& forall|z: Z, c: Z, next: Z| #[trigger]
        dynamics.step.ensures((z, c), next) ==> next == (rule.step)(z, c)
}

/// `states` is a run of `step` under the parameter `c`: it starts at `origin`,
/// and each later state is a result of `step` on the state before it.
pub open spec fn is_run<Z, S: Fn(Z, Z) -> Z>(step: S, c: Z, origin: Z, states: Seq<Z>) -> bool {
    &&& states.len() > 0 ==> states[0] == origin
    &&& forall|j: int|
        #![trigger states[j]]
        0 <= j < states.len() - 1 ==> step.ensures((states[j], c), states[j + 1])
}

/// `exceeds` answered "no" on each of the first `n` states.
pub open spec fn within_before<Z, E: Fn(Z) -> bool>(exceeds: E, states: Seq<Z>, n: int) -> bool {
    forall|j: int| 0 <= j < n ==> exceeds.ensures((#[trigger] states[j],), false)
}

/// What a call of [`escape_time`] may return, stated over the calls it made.
///
/// `Some(k)`: there is a run of `k + 1` states, `exceeds` answered "no" on the
/// first `k` and "yes" on the last, and `k < limit`. `None`: there is a run of
/// `limit` states, and `exceeds` answered "no" on each.
pub open spec fn escapes_as<Z, E: Fn(Z) -> bool, S: Fn(Z, Z) -> Z>(
    c: Z,
    limit: usize,
    dynamics: Dynamics<Z, E, S>,
    count: Option<usize>,
) -> bool {
    exists|states: Seq<Z>|
        #![trigger is_run(dynamics.step, c, dynamics.origin, states)]
        is_run(dynamics.step, c, dynamics.origin, states) && match count {
            Some(k) => {
                &&& k < limit
                &&& states.len() == k + 1
                &&& within_before(dynamics.exceeds, states, k as int)
                &&& dynamics.exceeds.ensures((states[k as int],), true)
            },
            None => states.len() == limit && within_before(dynamics.exceeds, states, limit as int),
        }
}

/// A run of a `dynamics` that computes `rule` is the orbit of `rule`, state
/// by state.
proof fn lemma_run_is_orbit<Z, E: Fn(Z) -> bool, S: Fn(Z, Z) -> Z>(
    dynamics: Dynamics<Z, E, S>,
    rule: Iteration<Z>,
    c: Z,
    states: Seq<Z>,
    n: nat,
)
    requires
        is_run(dynamics.step, c, dynamics.origin, states),
        computes(dynamics, rule),
        n < states.len(),
    ensures
        states[n as int] == orbit_at(rule, c, n),
    decreases n,
{
    if n > 0 {
        let before: int = n - 1;
        lemma_run_is_orbit(dynamics, rule, c, states, before as nat);
    }
}

/// Where `dynamics` computes `rule`, whatever [`escape_time`] returns is the
/// escape time of `c` under `rule`.
pub proof fn lemma_escape_time_follows_rule<Z, E: Fn(Z) -> bool, S: Fn(Z, Z) -> Z>(
    c: Z,
    limit: usize,
    dynamics: Dynamics<Z, E, S>,
    count: Option<usize>,
    rule: Iteration<Z>,
)
    requires
        escapes_as(c, limit, dynamics, count),
        computes(dynamics, rule),
    ensures
        count == escape_count(rule, c, limit),
{
    let states = choose|states: Seq<Z>|
        #![trigger is_run(dynamics.step, c, dynamics.origin, states)]
        is_run(dynamics.step, c, dynamics.origin, states) && match count {
            Some(k) => {
                &&& k < limit
                &&& states.len() == k + 1
                &&& within_before(dynamics.exceeds, states, k as int)
                &&& dynamics.exceeds.ensures((states[k as int],), true)
            },
            None => states.len() == limit && within_before(dynamics.exceeds, states, limit as int),
        };
    assert forall|j: nat| j < states.len() implies states[j as int] == #[trigger] orbit_at(
        rule,
        c,
        j,
    ) by {
        lemma_run_is_orbit(dynamics, rule, c, states, j);
    }
    match count {
        Some(k) => {
            assert forall|j: nat| j < k implies !(rule.exceeds)(#[trigger] orbit_at(rule, c, j)) by {
                assert(dynamics.exceeds.ensures((states[j as int],), false));
            }
        },
        None => {
            assert forall|j: nat| j < limit implies !(rule.exceeds)(#[trigger] orbit_at(rule, c, j)) by {
                assert(dynamics.exceeds.ensures((states[j as int],), false));
            }
        },
    }
    assert(is_escape_count(rule, c, limit, count));
    lemma_escape_count_defined(rule, c, limit);
}

/// Iterates `z <- step(z, c)` from `origin`, testing `exceeds(z)` before each
/// step, for at most `limit` tests. Returns the number of steps taken before
/// the first test that held, or `None` if none of the `limit` tests held.
pub fn escape_time<Z: Copy, E: Fn(Z) -> bool, S: Fn(Z, Z) -> Z>(
    c: Z,
    limit: usize,
    dynamics: &Dynamics<Z, E, S>,
) -> (count: Option<usize>)
    requires
        forall|z: Z| #[trigger] dynamics.exceeds.requires((z,)),
        forall|z: Z| #[trigger] dynamics.step.requires((z, c)),
    ensures
        escapes_as(c, limit, *dynamics, count),
        count matches Some(k) ==> k < limit,
        forall|rule: Iteration<Z>| #[trigger]
            computes(*dynamics, rule) ==> count == escape_count(rule, c, limit),
{
    let mut z = dynamics.origin;
    let ghost mut seen: Seq<Z> = Seq::empty();
    let mut i: usize = 0;
    while i < limit
        invariant
            i <= limit,
            forall|z: Z| #[trigger] dynamics.exceeds.requires((z,)),
            forall|z: Z| #[trigger] dynamics.step.requires((z, c)),
            seen.len() == i,
            is_run(dynamics.step, c, dynamics.origin, seen.push(z)),
            within_before(dynamics.exceeds, seen, i as int),
        decreases limit - i,
    {
        let ghost states = seen.push(z);
        if (dynamics.exceeds)(z) {
            proof {
                assert forall|j: int| 0 <= j < i implies dynamics.exceeds.ensures(
                    (#[trigger] states[j],),
                    false,
                ) by {
                    assert(states[j] == seen[j]);
                }
                assert(escapes_as(c, limit, *dynamics, Some(i)));
                assert forall|rule: Iteration<Z>| #[trigger]
                    computes(*dynamics, rule) implies Some(i) == escape_count(rule, c, limit) by {
                    lemma_escape_time_follows_rule(c, limit, *dynamics, Some(i), rule);
                }
            }
            return Some(i);
        }
        let next = (dynamics.step)(z, c);
        proof {
            let longer = states.push(next);
            assert forall|j: int| 0 <= j < longer.len() - 1 implies dynamics.step.ensures(
                (#[trigger] longer[j], c),
                longer[j + 1],
            ) by {
                if j < states.len() - 1 {
                    assert(longer[j] == states[j]);
                    assert(longer[j + 1] == states[j + 1]);
                }
            }
            assert forall|j: int| 0 <= j < i + 1 implies dynamics.exceeds.ensures(
                (#[trigger] states[j],),
                false,
            ) by {
                if j < i {
                    assert(states[j] == seen[j]);
                }
            }
            seen = states;
        }
        z = next;
        i = i + 1;
    }
    proof {
        let states = seen.push(z);
        assert forall|j: int| 0 <= j < seen.len() - 1 implies dynamics.step.ensures(
            (#[trigger] seen[j], c),
            seen[j + 1],
        ) by {
            assert(states[j] == seen[j]);
            assert(states[j + 1] == seen[j + 1]);
        }
        assert(is_run(dynamics.step, c, dynamics.origin, seen));
        assert(escapes_as(c, limit, *dynamics, None));
        assert forall|rule: Iteration<Z>| #[trigger]
            computes(*dynamics, rule) implies None::<usize> == escape_count(rule, c, limit) by {
            lemma_escape_time_follows_rule(c, limit, *dynamics, None, rule);
        }
    }
    None
}

/// Evaluating the same point twice gives the same count, where the caller's
/// functions give the same result whenever they get the same arguments.
pub proof fn lemma_escape_time_repeatable<Z, E: Fn(Z) -> bool, S: Fn(Z, Z) -> Z>(
    c: Z,
    limit: usize,
    dynamics: Dynamics<Z, E, S>,
    rule: Iteration<Z>,
    first: Option<usize>,
    second: Option<usize>,
)
    requires
        computes(dynamics, rule),
        escapes_as(c, limit, dynamics, first),
        escapes_as(c, limit, dynamics, second),
    ensures
        first == second,
{
    lemma_escape_time_follows_rule(c, limit, dynamics, first, rule);
    lemma_escape_time_follows_rule(c, limit, dynamics, second, rule);
}

/// An orbit that `step` holds at `origin` stays there.
proof fn lemma_fixed_orbit<Z>(rule: Iteration<Z>, c: Z, n: nat)
    requires
        (rule.step)(rule.origin, c) == rule.origin,
    ensures
        orbit_at(rule, c, n) == rule.origin,
    decreases n,
{
    if n > 0 {
        lemma_fixed_orbit(rule, c, (n - 1) as nat);
    }
}

/// A parameter whose step leaves `origin` in place never escapes, whatever the
/// limit, provided `origin` itself is within the bounded region. For the
/// Mandelbrot iteration that parameter is `0`.
pub proof fn lemma_fixed_origin_never_escapes<Z>(rule: Iteration<Z>, c: Z, limit: usize)
    requires
        !(rule.exceeds)(rule.origin),
        (rule.step)(rule.origin, c) == rule.origin,
    ensures
        escape_count(rule, c, limit) is None,
{
    lemma_escape_count_defined(rule, c, limit);
    if let Some(k) = escape_count(rule, c, limit) {
        lemma_fixed_orbit(rule, c, k as nat);
    }
}

/// A point whose orbit first leaves the bounded region at state `k`, with
/// `k < limit`, has escape time `k`.
pub proof fn lemma_first_exceeding_is_escape_time<Z>(rule: Iteration<Z>, c: Z, limit: usize, k: usize)
    requires
        k < limit,
        (rule.exceeds)(orbit_at(rule, c, k as nat)),
        forall|j: nat| j < k ==> !(rule.exceeds)(#[trigger] orbit_at(rule, c, j)),
    ensures
        escape_count(rule, c, limit) == Some(k),
{
    lemma_escape_count_defined(rule, c, limit);
}

} // verus!
