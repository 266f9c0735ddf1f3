//! The escape-time iteration: how many steps of a recurrence a seed
//! survives, within a budget.

use vstd::prelude::*;

verus! {

/// Whether `orbit` is a run of the recurrence from the seed `(cx, cy)`: it
/// begins at the seed, and `advance` leads from each point to the next.
pub open spec fn is_orbit<N, A: Fn(N, N, N, N) -> (N, N)>(
    orbit: Seq<(N, N)>,
    cx: N,
    cy: N,
    advance: A,
) -> bool {
    &&& orbit.len() >= 1
    &&& orbit[0] == (cx, cy)
    &&& forall|k: int|
        1 <= k < orbit.len() ==> call_ensures(
            advance,
            (orbit[k - 1].0, orbit[k - 1].1, cx, cy),
            #[trigger] orbit[k],
        )
}

/// Whether `orbit` shows that the escape count of `(cx, cy)` is `count`:
/// it is a run of `count` steps from the seed, no point before the last
/// has escaped, and the last one has, unless the budget `limit` ran out
/// first.
pub open spec fn witnesses<N, E: Fn(N, N) -> bool, A: Fn(N, N, N, N) -> (N, N)>(
    orbit: Seq<(N, N)>,
    cx: N,
    cy: N,
    limit: u32,
    escaped: E,
    advance: A,
    count: u32,
) -> bool {
    &&& count <= limit
    &&& orbit.len() == count + 1
    &&& is_orbit(orbit, cx, cy, advance)
    &&& forall|k: int|
        0 <= k < count ==> call_ensures(escaped, #[trigger] orbit[k], false)
    &&& count < limit ==> call_ensures(escaped, orbit[count as int], true)
}

/// Whether `count` is an escape count of the seed `(cx, cy)` under the
/// budget `limit`: the number of steps the recurrence completes before a
/// point escapes, or `limit` where none of the first `limit` points does.
pub open spec fn escape_count<N, E: Fn(N, N) -> bool, A: Fn(N, N, N, N) -> (N, N)>(
    cx: N,
    cy: N,
    limit: u32,
    escaped: E,
    advance: A,
    count: u32,
) -> bool {
    exists|orbit: Seq<(N, N)>| witnesses(orbit, cx, cy, limit, escaped, advance, count)
}

/// Whether `escaped` and `advance` each give one answer per input.
pub open spec fn deterministic<N, E: Fn(N, N) -> bool, A: Fn(N, N, N, N) -> (N, N)>(
    escaped: E,
    advance: A,
) -> bool {
    &&& forall|z: (N, N), a: bool, b: bool|
        call_ensures(escaped, z, a) && call_ensures(escaped, z, b) ==> a == b
    &&& forall|args: (N, N, N, N), a: (N, N), b: (N, N)|
        call_ensures(advance, args, a) && call_ensures(advance, args, b) ==> a == b
}

/// Runs the recurrence `z <- advance(z, c)` from `z = c = (cx, cy)` until
/// `escaped(z)` holds or `limit` steps are done, and returns the number of
/// steps done.
///
/// The plane's arithmetic is the caller's: for the quadratic family,
/// `advance(x, y, cx, cy)` is `(x*x - y*y + cx, 2*x*y + cy)` and
/// `escaped(x, y)` is `x*x + y*y > 4`, in whatever number type `N` the
/// caller computes with.
///
/// The count never exceeds `limit`, and it is `limit` only where none of
/// the first `limit` points of the orbit has escaped. A seed that has
/// itself escaped gets the count 0.
pub fn mandelbrot<N: Copy, E: Fn(N, N) -> bool, A: Fn(N, N, N, N) -> (N, N)>(
    cx: N,
    cy: N,
    limit: u32,
    escaped: &E,
    advance: &A,
) -> (count: u32)
    requires
        forall|x: N, y: N| call_requires(*escaped, (x, y)),
        forall|x: N, y: N| call_requires(*advance, (x, y, cx, cy)),
    ensures
        count <= limit,
        escape_count(cx, cy, limit, *escaped, *advance, count),
        (forall|b: bool| call_ensures(*escaped, (cx, cy), b) ==> b) ==> count == 0,
{
    let mut x: N = cx;
    let mut y: N = cy;
    let mut count: u32 = 0;
    let ghost mut orbit: Seq<(N, N)> = seq![(cx, cy)];
    while count < limit
        invariant_except_break
            count <= limit,
            orbit.len() == count + 1,
            orbit[count as int] == (x, y),
            is_orbit(orbit, cx, cy, *advance),
            forall|k: int| 0 <= k < count ==> call_ensures(*escaped, #[trigger] orbit[k], false),
        invariant
            forall|x: N, y: N| call_requires(*escaped, (x, y)),
            forall|x: N, y: N| call_requires(*advance, (x, y, cx, cy)),
        ensures
            witnesses(orbit, cx, cy, limit, *escaped, *advance, count),
        decreases limit - count,
    {
        if escaped(x, y) {
            break ;
        }
        let next: (N, N) = advance(x, y, cx, cy);
        count = count + 1;
        x = next.0;
        y = next.1;
        proof {
            orbit = orbit.push((x, y));
        }
    }
    proof {
        if count > 0 {
            assert(call_ensures(*escaped, orbit[0], false));
        }
    }
    count
}

/// Two runs from one seed agree point by point as far as both go, where the
/// recurrence gives one answer per input.
proof fn lemma_orbits_agree<N, A: Fn(N, N, N, N) -> (N, N)>(
    o1: Seq<(N, N)>,
    o2: Seq<(N, N)>,
    cx: N,
    cy: N,
    advance: A,
    k: int,
)
    requires
        is_orbit(o1, cx, cy, advance),
        is_orbit(o2, cx, cy, advance),
        0 <= k < o1.len(),
        k < o2.len(),
        forall|args: (N, N, N, N), a: (N, N), b: (N, N)|
            call_ensures(advance, args, a) && call_ensures(advance, args, b) ==> a == b,
    ensures
        o1[k] == o2[k],
    decreases k,
{
    if k > 0 {
        lemma_orbits_agree(o1, o2, cx, cy, advance, k - 1);
        assert(call_ensures(advance, (o1[k - 1].0, o1[k - 1].1, cx, cy), o1[k]));
        assert(call_ensures(advance, (o2[k - 1].0, o2[k - 1].1, cx, cy), o2[k]));
    }
}

/// A seed has one escape count, where the escape test and the recurrence
/// give one answer per input.
pub proof fn lemma_escape_count_unique<N, E: Fn(N, N) -> bool, A: Fn(N, N, N, N) -> (N, N)>(
    cx: N,
    cy: N,
    limit: u32,
    escaped: E,
    advance: A,
    c1: u32,
    c2: u32,
)
    requires
        deterministic(escaped, advance),
        escape_count(cx, cy, limit, escaped, advance, c1),
        escape_count(cx, cy, limit, escaped, advance, c2),
    ensures
        c1 == c2,
{
    let o1 = choose|o: Seq<(N, N)>| witnesses(o, cx, cy, limit, escaped, advance, c1);
    let o2 = choose|o: Seq<(N, N)>| witnesses(o, cx, cy, limit, escaped, advance, c2);
    if c1 < c2 {
        lemma_orbits_agree(o1, o2, cx, cy, advance, c1 as int);
        assert(call_ensures(escaped, o2[c1 as int], false));
        assert(call_ensures(escaped, o1[c1 as int], true));
    } else if c2 < c1 {
        lemma_orbits_agree(o1, o2, cx, cy, advance, c2 as int);
        assert(call_ensures(escaped, o1[c2 as int], false));
        assert(call_ensures(escaped, o2[c2 as int], true));
    }
}

} // verus!
