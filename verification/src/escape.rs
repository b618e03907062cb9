//! The escape-time test: how long the orbit of a point stays close.

use vstd::prelude::*;

verus! {

/// Whether `orbit` starts at `start` and each of its states follows from the
/// one before by a call of `advance`.
pub open spec fn is_orbit<Z, A: Fn(Z) -> Z>(orbit: Seq<Z>, start: Z, advance: A) -> bool {
    &&& orbit.len() > 0
    &&& orbit[0] == start
    &&& forall|step: int|
        0 <= step < orbit.len() - 1 ==> call_ensures(
            advance,
            (orbit[step],),
            #[trigger] orbit[step + 1],
        )
}

/// Whether `has_escaped` denies each of the first `steps` states that follow
/// the start of `orbit`.
pub open spec fn stays_close<Z, E: Fn(&Z) -> bool>(
    orbit: Seq<Z>,
    has_escaped: E,
    steps: int,
) -> bool {
    forall|step: int| 1 <= step <= steps ==> call_ensures(has_escaped, (&#[trigger] orbit[step],), false)
}

/// Whether an orbit from `start` stays close for `at` steps and has escaped
/// after the next one.
pub open spec fn escapes_at<Z, A: Fn(Z) -> Z, E: Fn(&Z) -> bool>(
    start: Z,
    advance: A,
    has_escaped: E,
    at: int,
) -> bool {
    exists|orbit: Seq<Z>|
        {
            &&& orbit.len() == at + 2
            &&& #[trigger] is_orbit(orbit, start, advance)
            &&& stays_close(orbit, has_escaped, at)
            &&& call_ensures(has_escaped, (&orbit[at + 1],), true)
        }
}

/// Whether an orbit from `start` stays close for `limit` steps.
pub open spec fn stays_for<Z, A: Fn(Z) -> Z, E: Fn(&Z) -> bool>(
    start: Z,
    advance: A,
    has_escaped: E,
    limit: int,
) -> bool {
    exists|orbit: Seq<Z>|
        {
            &&& orbit.len() == limit + 1
            &&& #[trigger] is_orbit(orbit, start, advance)
            &&& stays_close(orbit, has_escaped, limit)
        }
}

/// Whether `advance` has one answer for each state.
pub open spec fn advances_in_one_way<Z, A: Fn(Z) -> Z>(advance: A) -> bool {
    forall|state: Z, one: Z, other: Z|
        call_ensures(advance, (state,), one) && call_ensures(advance, (state,), other) ==> one
            == other
}

/// Whether `has_escaped` has one answer for each state.
pub open spec fn judges_in_one_way<Z, E: Fn(&Z) -> bool>(has_escaped: E) -> bool {
    forall|state: Z|
        !(call_ensures(has_escaped, (&state,), true) && call_ensures(
            has_escaped,
            (&state,),
            false,
        ))
}

/// Two orbits from one start under an `advance` that has one answer for each
/// state are the same as far as both go.
pub proof fn lemma_orbits_agree<Z, A: Fn(Z) -> Z>(
    one: Seq<Z>,
    other: Seq<Z>,
    start: Z,
    advance: A,
    step: int,
)
    requires
        advances_in_one_way::<Z, A>(advance),
        is_orbit(one, start, advance),
        is_orbit(other, start, advance),
        0 <= step < one.len(),
        step < other.len(),
    ensures
        one[step] == other[step],
    decreases step,
{
    if step > 0 {
        lemma_orbits_agree(one, other, start, advance, step - 1);
        assert(call_ensures(advance, (one[step - 1],), one[step - 1 + 1]));
        assert(call_ensures(advance, (other[step - 1],), other[step - 1 + 1]));
    }
}

/// Where `advance` and `has_escaped` have one answer for each state, an orbit
/// escapes at one step at most.
pub proof fn lemma_escape_step_unique<Z, A: Fn(Z) -> Z, E: Fn(&Z) -> bool>(
    start: Z,
    advance: A,
    has_escaped: E,
    at: int,
    other: int,
)
    requires
        advances_in_one_way::<Z, A>(advance),
        judges_in_one_way::<Z, E>(has_escaped),
        0 <= at,
        0 <= other,
        escapes_at(start, advance, has_escaped, at),
        escapes_at(start, advance, has_escaped, other),
    ensures
        at == other,
{
    let first = choose|orbit: Seq<Z>|
        {
            &&& orbit.len() == at + 2
            &&& #[trigger] is_orbit(orbit, start, advance)
            &&& stays_close(orbit, has_escaped, at)
            &&& call_ensures(has_escaped, (&orbit[at + 1],), true)
        };
    let second = choose|orbit: Seq<Z>|
        {
            &&& orbit.len() == other + 2
            &&& #[trigger] is_orbit(orbit, start, advance)
            &&& stays_close(orbit, has_escaped, other)
            &&& call_ensures(has_escaped, (&orbit[other + 1],), true)
        };
    if at < other {
        lemma_orbits_agree(first, second, start, advance, at + 1);
        assert(call_ensures(has_escaped, (&second[at + 1],), false));
    } else if other < at {
        lemma_orbits_agree(first, second, start, advance, other + 1);
        assert(call_ensures(has_escaped, (&first[other + 1],), false));
    }
}

/// Where `advance` and `has_escaped` have one answer for each state, an orbit
/// that stays close for `limit` steps escapes at none of them.
pub proof fn lemma_stays_or_escapes<Z, A: Fn(Z) -> Z, E: Fn(&Z) -> bool>(
    start: Z,
    advance: A,
    has_escaped: E,
    limit: int,
    at: int,
)
    requires
        advances_in_one_way::<Z, A>(advance),
        judges_in_one_way::<Z, E>(has_escaped),
        0 <= at,
        stays_for(start, advance, has_escaped, limit),
        escapes_at(start, advance, has_escaped, at),
    ensures
        limit <= at,
{
    let staying = choose|orbit: Seq<Z>|
        {
            &&& orbit.len() == limit + 1
            &&& #[trigger] is_orbit(orbit, start, advance)
            &&& stays_close(orbit, has_escaped, limit)
        };
    let leaving = choose|orbit: Seq<Z>|
        {
            &&& orbit.len() == at + 2
            &&& #[trigger] is_orbit(orbit, start, advance)
            &&& stays_close(orbit, has_escaped, at)
            &&& call_ensures(has_escaped, (&orbit[at + 1],), true)
        };
    if at < limit {
        lemma_orbits_agree(staying, leaving, start, advance, at + 1);
        assert(call_ensures(has_escaped, (&staying[at + 1],), false));
    }
}

/// An orbit from a start that `advance` leaves where it is never leaves it.
pub proof fn lemma_orbit_of_fixed_point<Z, A: Fn(Z) -> Z>(
    orbit: Seq<Z>,
    start: Z,
    advance: A,
    step: int,
)
    requires
        forall|next: Z| call_ensures(advance, (start,), next) ==> next == start,
        is_orbit(orbit, start, advance),
        0 <= step < orbit.len(),
    ensures
        orbit[step] == start,
    decreases step,
{
    if step > 0 {
        lemma_orbit_of_fixed_point(orbit, start, advance, step - 1);
        assert(call_ensures(advance, (orbit[step - 1],), orbit[step - 1 + 1]));
    }
}

/// A start that `advance` leaves where it is, and that `has_escaped` does not
/// take for escaped, escapes at no step.
pub proof fn lemma_fixed_point_never_escapes<Z, A: Fn(Z) -> Z, E: Fn(&Z) -> bool>(
    start: Z,
    advance: A,
    has_escaped: E,
    at: int,
)
    requires
        forall|next: Z| call_ensures(advance, (start,), next) ==> next == start,
        !call_ensures(has_escaped, (&start,), true),
        0 <= at,
    ensures
        !escapes_at(start, advance, has_escaped, at),
{
    if escapes_at(start, advance, has_escaped, at) {
        let orbit = choose|orbit: Seq<Z>|
            {
                &&& orbit.len() == at + 2
                &&& #[trigger] is_orbit(orbit, start, advance)
                &&& stays_close(orbit, has_escaped, at)
                &&& call_ensures(has_escaped, (&orbit[at + 1],), true)
            };
        lemma_orbit_of_fixed_point(orbit, start, advance, at + 1);
    }
}

/// Follows the orbit of `start` under `advance` for at most `limit` steps and
/// asks `has_escaped` of the state after each step. The result is the number
/// of the first step, counted from 0, after which the orbit had escaped, or
/// `None` if it stayed close for `limit` steps. With a limit of 0 no step is
/// taken.
pub fn escape_time<Z, A: Fn(Z) -> Z, E: Fn(&Z) -> bool>(
    start: Z,
    limit: u32,
    advance: A,
    has_escaped: E,
) -> (result: Option<u32>)
    requires
        forall|state: Z| call_requires(advance, (state,)),
        forall|state: Z| call_requires(has_escaped, (&state,)),
    ensures
        match result {
            Some(at) => at < limit && escapes_at(start, advance, has_escaped, at as int),
            None => stays_for(start, advance, has_escaped, limit as int),
        },
        limit == 0 ==> result is None,
{
    let mut state = start;
    let ghost mut orbit: Seq<Z> = seq![start];
    let mut step: u32 = 0;
    while step < limit
        invariant
            step <= limit,
            forall|state: Z| call_requires(advance, (state,)),
            forall|state: Z| call_requires(has_escaped, (&state,)),
            orbit.len() == step + 1,
            orbit[step as int] == state,
            is_orbit(orbit, start, advance),
            stays_close(orbit, has_escaped, step as int),
        decreases limit - step,
    {
        let ghost before = orbit;
        state = advance(state);
        proof {
            orbit = orbit.push(state);
            assert forall|earlier: int| 0 <= earlier < orbit.len() - 1 implies call_ensures(
                advance,
                (orbit[earlier],),
                #[trigger] orbit[earlier + 1],
            ) by {
                if earlier < step {
                    assert(orbit[earlier] == before[earlier]);
                    assert(orbit[earlier + 1] == before[earlier + 1]);
                }
            }
            assert forall|earlier: int| 1 <= earlier <= step implies call_ensures(
                has_escaped,
                (&#[trigger] orbit[earlier],),
                false,
            ) by {
                assert(orbit[earlier] == before[earlier]);
            }
        }
        if has_escaped(&state) {
            assert(is_orbit(orbit, start, advance));
            return Some(step);
        }
        step += 1;
    }
    assert(is_orbit(orbit, start, advance));
    None
}

} // verus!
