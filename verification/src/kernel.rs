//! The escape-time kernel: how many steps an orbit takes to leave.

use vstd::prelude::*;
use crate::escape::Escape;

verus! {

/// Whether `step` may take the point `k` of `orbit` to the next one without
/// reporting that it has left.
pub open spec fn stays_at<Z, F: Fn(Z) -> (Z, bool)>(step: F, orbit: Seq<Z>, k: int) -> bool {
    call_ensures(step, (orbit[k],), (orbit[k + 1], false))
}

/// Whether `orbit` lists points that `step` went through one after the other
/// without reporting that any of them had left.
pub open spec fn stays<Z, F: Fn(Z) -> (Z, bool)>(step: F, orbit: Seq<Z>) -> bool {
    forall|k: int| 0 <= k < orbit.len() - 1 ==> #[trigger] stays_at(step, orbit, k)
}

/// Whether `step`, taken from `z`, reports that the orbit has left.
pub open spec fn leaves<Z, F: Fn(Z) -> (Z, bool)>(step: F, z: Z) -> bool {
    exists|next: Z| call_ensures(step, (z,), (next, true))
}

/// Whether `step` computes `f`: whatever it returns for a point is what `f`
/// gives for it.
pub open spec fn computes<Z, F: Fn(Z) -> (Z, bool)>(step: F, f: spec_fn(Z) -> (Z, bool)) -> bool {
    forall|z: Z, r: (Z, bool)| call_ensures(step, (z,), r) ==> r == f(z)
}

/// The count of the first step on which `f` reports that the orbit has left,
/// for an orbit that has come to `z` in `taken` steps, or zero if it stays
/// until `budget` steps are taken.
pub open spec fn first_escape<Z>(f: spec_fn(Z) -> (Z, bool), z: Z, budget: int, taken: int) -> int
    decreases budget - taken,
{
    if taken >= budget {
        0
    } else if f(z).1 {
        taken + 1
    } else {
        first_escape(f, f(z).0, budget, taken + 1)
    }
}

/// Whether `orbit` bears out the escape value `count` out of `budget` for the
/// orbit that `step` draws from `z0`: it starts there and stays, either for
/// `budget` steps where `count` is zero, or for `count - 1` steps, leaving on
/// the next.
pub open spec fn bears_out<Z, F: Fn(Z) -> (Z, bool)>(
    step: F,
    z0: Z,
    budget: int,
    count: int,
    orbit: Seq<Z>,
) -> bool {
    &&& orbit.len() > 0
    &&& orbit[0] == z0
    &&& stays(step, orbit)
    &&& if count == 0 {
        orbit.len() == budget + 1
    } else {
        orbit.len() == count && count <= budget && leaves(step, orbit.last())
    }
}

/// Whether `count` out of `budget` is an escape value of the orbit that
/// `step` draws from `z0`.
pub open spec fn escapes_at<Z, F: Fn(Z) -> (Z, bool)>(
    step: F,
    z0: Z,
    budget: int,
    count: int,
) -> bool {
    exists|orbit: Seq<Z>| #[trigger] bears_out(step, z0, budget, count, orbit)
}

/// Iterates `step` from `z0`, counting from one, until it reports that the
/// orbit has left or the budget is spent.
///
/// `step` takes a point to the next one and says whether that one lies
/// beyond the bail-out radius; it must accept `z0` and every point that it
/// yields. The result is the count of the step that left, out of
/// `max_iterations`, or zero if none did.
pub fn evaluate<Z, F: Fn(Z) -> (Z, bool)>(z0: Z, max_iterations: u32, step: F) -> (e: Escape)
    requires
        0 < max_iterations,
        call_requires(step, (z0,)),
        forall|z: Z, next: Z, gone: bool|
            call_ensures(step, (z,), (next, gone)) ==> call_requires(step, (next,)),
    ensures
        e.valid(),
        e.budget() == max_iterations,
        escapes_at(step, z0, max_iterations as int, e.count() as int),
        forall|f: spec_fn(Z) -> (Z, bool)| #[trigger]
            computes(step, f) ==> e.count() == first_escape(f, z0, max_iterations as int, 0),
{
    let ghost mut orbit: Seq<Z> = seq![z0];
    let mut z = z0;
    let mut n: u32 = 0;
    while n < max_iterations
        invariant
            n <= max_iterations,
            orbit.len() == n + 1,
            orbit[0] == z0,
            orbit.last() == z,
            stays(step, orbit),
            call_requires(step, (z,)),
            forall|z: Z, next: Z, gone: bool|
                call_ensures(step, (z,), (next, gone)) ==> call_requires(step, (next,)),
        decreases max_iterations - n,
    {
        let (next, escaped) = step(z);
        n += 1;
        if escaped {
            proof {
                assert(bears_out(step, z0, max_iterations as int, n as int, orbit));
                assert forall|f: spec_fn(Z) -> (Z, bool)| #[trigger]
                    computes(step, f) implies n == first_escape(
                    f,
                    z0,
                    max_iterations as int,
                    0,
                ) by {
                    lemma_first_escape(step, f, z0, max_iterations as int, n as int);
                }
            }
            return Escape::new(n, max_iterations).unwrap();
        }
        proof {
            let longer = orbit.push(next);
            assert forall|k: int| 0 <= k < longer.len() - 1 implies #[trigger] stays_at(
                step,
                longer,
                k,
            ) by {
                if k < orbit.len() - 1 {
                    assert(stays_at(step, orbit, k));
                    assert(longer[k] == orbit[k] && longer[k + 1] == orbit[k + 1]);
                }
            }
            orbit = longer;
        }
        z = next;
    }
    proof {
        assert(bears_out(step, z0, max_iterations as int, 0, orbit));
        assert forall|f: spec_fn(Z) -> (Z, bool)| #[trigger]
            computes(step, f) implies 0 == first_escape(f, z0, max_iterations as int, 0) by {
            lemma_first_escape(step, f, z0, max_iterations as int, 0);
        }
    }
    Escape::new(0, max_iterations).unwrap()
}

/// Where `step` computes `f`, the escape value of an orbit counts the first
/// step on which `f` reports that the orbit has left.
pub proof fn lemma_first_escape<Z, F: Fn(Z) -> (Z, bool)>(
    step: F,
    f: spec_fn(Z) -> (Z, bool),
    z0: Z,
    budget: int,
    count: int,
)
    requires
        computes(step, f),
        0 <= count,
        escapes_at(step, z0, budget, count),
    ensures
        count == first_escape(f, z0, budget, 0),
{
    let orbit = choose|orbit: Seq<Z>| #[trigger] bears_out(step, z0, budget, count, orbit);
    lemma_first_escape_from(step, f, orbit, budget, count, 0);
}

/// From any point of an orbit on, `f` counts up to the orbit's escape value.
proof fn lemma_first_escape_from<Z, F: Fn(Z) -> (Z, bool)>(
    step: F,
    f: spec_fn(Z) -> (Z, bool),
    orbit: Seq<Z>,
    budget: int,
    count: int,
    k: int,
)
    requires
        computes(step, f),
        0 <= count,
        0 <= k < orbit.len(),
        bears_out(step, orbit[0], budget, count, orbit),
    ensures
        first_escape(f, orbit[k], budget, k) == count,
    decreases orbit.len() - k,
{
    if k < orbit.len() - 1 {
        assert(stays_at(step, orbit, k));
        lemma_first_escape_from(step, f, orbit, budget, count, k + 1);
    } else if count > 0 {
        let next = choose|next: Z| call_ensures(step, (orbit.last(),), (next, true));
        assert(f(orbit[k]) == (next, true));
    }
}

} // verus!
