//! 360-permutation assignment over the 4x6 similarity matrix.

use crate::ieee::single::{above, lemma_difference, lemma_order, sum};
use crate::ieee::{finite, is_nan, value};
use crate::scalar::{Scalar, Single};
use vstd::prelude::*;

verus! {

/// The best assignment.
pub struct Assignment<T> {
    /// Candidate slot of each prompt glyph, in prompt order.
    pub slots: [usize; 4],
    pub score: T,
    /// Best minus runner-up total score: low margin => refetch instead of submit.
    pub margin: T,
}

/// Slot of prompt `i` in map `t`: the maps from 4 prompts to 6 slots are numbered in
/// lexicographic order.
pub open spec fn slot_in(t: int, i: int) -> int {
    if i == 0 {
        t / 216
    } else if i == 1 {
        t / 36 % 6
    } else if i == 2 {
        t / 6 % 6
    } else {
        t % 6
    }
}

/// Map `t` gives no slot to two prompts.
pub open spec fn injective(t: int) -> bool {
    let (a, b, c, d) = (slot_in(t, 0), slot_in(t, 1), slot_in(t, 2), slot_in(t, 3));
    &&& 0 <= t < 1296
    &&& b != a
    &&& c != a
    &&& c != b
    &&& d != a
    &&& d != b
    &&& d != c
}

/// The similarities that map `t` picks, summed left to right.
pub open spec fn score_of<T: Scalar>(sim: Seq<Seq<T>>, t: int) -> T {
    sim[0][slot_in(t, 0)].plus_spec(sim[1][slot_in(t, 1)]).plus_spec(
        sim[2][slot_in(t, 2)],
    ).plus_spec(sim[3][slot_in(t, 3)])
}

/// The best and second best scores so far, and the map that has the best.
pub ghost struct Ranking<T> {
    pub best: T,
    pub second: T,
    /// None before any score is above the lowest number.
    pub map: Option<int>,
}

/// The ranking of the injective maps before `t`. The first of equal scores stays ahead.
pub open spec fn ranked<T: Scalar>(sim: Seq<Seq<T>>, t: int) -> Ranking<T>
    decreases t,
{
    if t <= 0 {
        Ranking { best: T::lowest_spec(), second: T::lowest_spec(), map: None }
    } else {
        let r = ranked(sim, t - 1);
        let s = score_of(sim, t - 1);
        if !injective(t - 1) {
            r
        } else if s.above_spec(r.best) {
            Ranking { best: s, second: r.best, map: Some(t - 1) }
        } else if s.above_spec(r.second) {
            Ranking { second: s, ..r }
        } else {
            r
        }
    }
}

/// A similarity matrix as sequences.
pub open spec fn grid_of<T>(sim: [[T; 6]; 4]) -> Seq<Seq<T>> {
    Seq::new(4, |i: int| sim[i]@)
}

/// The slots of the best map; all zero if there is none.
pub open spec fn slots_of<T>(r: Ranking<T>) -> Seq<usize> {
    match r.map {
        Some(t) => Seq::new(4, |i: int| slot_in(t, i) as usize),
        None => Seq::new(4, |i: int| 0usize),
    }
}

/// Best injective prompt -> candidate mapping over all 6P4 = 360 permutations, visited in
/// lexicographic order and summed left to right.
pub fn assign<T: Scalar>(sim: &[[T; 6]; 4]) -> (r: Assignment<T>)
    ensures
        ({
            let all = ranked(grid_of(*sim), 1296);
            &&& r.slots@ == slots_of(all)
            &&& r.score == all.best
            &&& r.margin == all.best.minus_spec(all.second)
        }),
        // The score is the sum of the four similarities at the slots, which are all different.
        r.score.above_spec(T::lowest_spec()) && ordered::<T>() ==> {
            let (i, j, k, l) = (r.slots[0], r.slots[1], r.slots[2], r.slots[3]);
            &&& i < 6 && j < 6 && k < 6 && l < 6
            &&& i != j && i != k && i != l && j != k && j != l && k != l
            &&& r.score == sim[0][i as int].plus_spec(sim[1][j as int]).plus_spec(
                sim[2][k as int],
            ).plus_spec(sim[3][l as int])
        },
        // No four different slots have a larger sum.
        ordered::<T>() ==> forall|a: int, b: int, c: int, d: int|
            #![trigger sim[0][a], sim[1][b], sim[2][c], sim[3][d]]
            0 <= a < 6 && 0 <= b < 6 && 0 <= c < 6 && 0 <= d < 6 && a != b && a != c && a != d && b
                != c && b != d && c != d ==> !sim[0][a].plus_spec(sim[1][b]).plus_spec(
                sim[2][c],
            ).plus_spec(sim[3][d]).above_spec(r.score),
{
    let ghost grid = grid_of(*sim);
    let mut best: T = T::lowest();
    let mut second: T = T::lowest();
    let mut slots: [usize; 4] = [0; 4];
    let mut t: usize = 0;
    assert(slots@ =~= slots_of(ranked(grid, 0)));
    while t < 1296
        invariant
            t <= 1296,
            grid == grid_of(*sim),
            best == ranked(grid, t as int).best,
            second == ranked(grid, t as int).second,
            slots@ == slots_of(ranked(grid, t as int)),
        decreases 1296 - t,
    {
        let (a, b, c, d): (usize, usize, usize, usize) = (t / 216, t / 36 % 6, t / 6 % 6, t % 6);
        if b != a && c != a && c != b && d != a && d != b && d != c {
            let s: T = sim[0][a].plus(sim[1][b]).plus(sim[2][c]).plus(sim[3][d]);
            if s.above(best) {
                second = best;
                best = s;
                slots = [a, b, c, d];
                assert(slots@ =~= slots_of(ranked(grid, t + 1)));
            } else if s.above(second) {
                second = s;
            }
        }
        t += 1;
    }
    let r = Assignment { slots, score: best, margin: best.minus(second) };
    proof {
        if ordered::<T>() {
            lemma_ranked(grid, 1296);
            let all = ranked(grid, 1296);
            if best.above_spec(T::lowest_spec()) {
                let (i, j, k, l) = (slots[0], slots[1], slots[2], slots[3]);
                lemma_tuple(i as int, j as int, k as int, l as int);
            }
            assert forall|a: int, b: int, c: int, d: int|
                #![trigger sim[0][a], sim[1][b], sim[2][c], sim[3][d]]
                0 <= a < 6 && 0 <= b < 6 && 0 <= c < 6 && 0 <= d < 6 && a != b && a != c && a != d
                    && b != c && b != d && c != d implies !sim[0][a].plus_spec(
                sim[1][b],
            ).plus_spec(sim[2][c]).plus_spec(sim[3][d]).above_spec(r.score) by {
                lemma_tuple(a, b, c, d);
                assert(injective(216 * a + 36 * b + 6 * c + d));
            }
        }
    }
    r
}

/// Four slots as a map, and back.
proof fn lemma_tuple(a: int, b: int, c: int, d: int)
    requires
        0 <= a < 6,
        0 <= b < 6,
        0 <= c < 6,
        0 <= d < 6,
    ensures
        ({
            let t = 216 * a + 36 * b + 6 * c + d;
            &&& 0 <= t < 1296
            &&& slot_in(t, 0) == a
            &&& slot_in(t, 1) == b
            &&& slot_in(t, 2) == c
            &&& slot_in(t, 3) == d
        }),
{
    let t = 216 * a + 36 * b + 6 * c + d;
    assert(t / 216 == a && t / 36 == 6 * a + b && t / 6 == 36 * a + 6 * b + c && t % 6 == d);
    assert((6 * a + b) % 6 == b && (36 * a + 6 * b + c) % 6 == c);
}

/// Every map is four slots.
proof fn lemma_slots(t: int)
    requires
        0 <= t < 1296,
    ensures
        ({
            let (a, b, c, d) = (slot_in(t, 0), slot_in(t, 1), slot_in(t, 2), slot_in(t, 3));
            &&& 0 <= a < 6
            &&& 0 <= b < 6
            &&& 0 <= c < 6
            &&& 0 <= d < 6
            &&& t == 216 * a + 36 * b + 6 * c + d
        }),
{
}

/// The score is a sum of four similarities, one of each prompt, at four different slots: the
/// slots that are given.
pub proof fn lemma_score_is_a_sum<T: Scalar>(sim: Seq<Seq<T>>, slots: Seq<usize>, score: T)
    requires
        ordered::<T>(),
        slots == slots_of(ranked(sim, 1296)),
        score == ranked(sim, 1296).best,
        score.above_spec(T::lowest_spec()),
    ensures
        forall|i: int| 0 <= i < 4 ==> 0 <= #[trigger] slots[i] < 6,
        forall|i: int, j: int| 0 <= i < j < 4 ==> #[trigger] slots[i] != #[trigger] slots[j],
        score == sim[0][slots[0] as int].plus_spec(sim[1][slots[1] as int]).plus_spec(
            sim[2][slots[2] as int],
        ).plus_spec(sim[3][slots[3] as int]),
{
    lemma_ranked(sim, 1296);
    lemma_slots(ranked(sim, 1296).map.unwrap());
}

/// No four different slots have a larger sum of similarities, and where they have the same
/// sum, they do not come before the ones that are given. Some have a sum above the lowest
/// number only if the score is one.
pub proof fn lemma_no_larger_sum<T: Scalar>(
    sim: Seq<Seq<T>>,
    slots: Seq<usize>,
    score: T,
    a: int,
    b: int,
    c: int,
    d: int,
)
    requires
        ordered::<T>(),
        slots == slots_of(ranked(sim, 1296)),
        score == ranked(sim, 1296).best,
        0 <= a < 6,
        0 <= b < 6,
        0 <= c < 6,
        0 <= d < 6,
        a != b && a != c && a != d && b != c && b != d && c != d,
    ensures
        ({
            let sum = sim[0][a].plus_spec(sim[1][b]).plus_spec(sim[2][c]).plus_spec(sim[3][d]);
            &&& !sum.above_spec(score)
            &&& sum.above_spec(T::lowest_spec()) ==> score.above_spec(T::lowest_spec())
            &&& sum == score && score.above_spec(T::lowest_spec()) ==> {
                ||| slots[0] < a
                ||| slots[0] == a && slots[1] < b
                ||| slots[0] == a && slots[1] == b && slots[2] < c
                ||| slots[0] == a && slots[1] == b && slots[2] == c && slots[3] <= d
            }
        }),
{
    lemma_ranked(sim, 1296);
    lemma_tuple(a, b, c, d);
    let t = 216 * a + 36 * b + 6 * c + d;
    assert(injective(t));
    if let Some(w) = ranked(sim, 1296).map {
        lemma_slots(w);
    }
}

/// The margin is what the score is ahead of the best sum of any other four different slots:
/// no other sum is larger than the one it was taken from, which is the sum of such slots
/// wherever there is one above the lowest number.
pub proof fn lemma_margin_is_the_lead<T: Scalar>(
    sim: Seq<Seq<T>>,
    slots: Seq<usize>,
    score: T,
    margin: T,
    a: int,
    b: int,
    c: int,
    d: int,
) -> (e: (int, int, int, int))
    requires
        ordered::<T>(),
        slots == slots_of(ranked(sim, 1296)),
        score == ranked(sim, 1296).best,
        margin == ranked(sim, 1296).best.minus_spec(ranked(sim, 1296).second),
        0 <= a < 6,
        0 <= b < 6,
        0 <= c < 6,
        0 <= d < 6,
        a != b && a != c && a != d && b != c && b != d && c != d,
        a != slots[0] || b != slots[1] || c != slots[2] || d != slots[3],
        sim[0][a].plus_spec(sim[1][b]).plus_spec(sim[2][c]).plus_spec(sim[3][d]).above_spec(
            T::lowest_spec(),
        ),
    ensures
        ({
            let sum = sim[0][a].plus_spec(sim[1][b]).plus_spec(sim[2][c]).plus_spec(sim[3][d]);
            let next = sim[0][e.0].plus_spec(sim[1][e.1]).plus_spec(sim[2][e.2]).plus_spec(
                sim[3][e.3],
            );
            &&& 0 <= e.0 < 6 && 0 <= e.1 < 6 && 0 <= e.2 < 6 && 0 <= e.3 < 6
            &&& e.0 != e.1 && e.0 != e.2 && e.0 != e.3 && e.1 != e.2 && e.1 != e.3 && e.2 != e.3
            &&& e.0 != slots[0] || e.1 != slots[1] || e.2 != slots[2] || e.3 != slots[3]
            &&& margin == score.minus_spec(next)
            &&& !sum.above_spec(next)
        }),
{
    lemma_ranked(sim, 1296);
    lemma_tuple(a, b, c, d);
    let r = ranked(sim, 1296);
    let t = 216 * a + 36 * b + 6 * c + d;
    assert(injective(t));
    assert(r.map is Some);
    let w = r.map.unwrap();
    lemma_slots(w);
    assert(w != t);
    let v = choose|v: int|
        0 <= v < 1296 && #[trigger] injective(v) && r.map != Some(v) && r.second == score_of(sim, v);
    lemma_slots(v);
    (slot_in(v, 0), slot_in(v, 1), slot_in(v, 2), slot_in(v, 3))
}

/// `above` is a strict order.
pub open spec fn ordered<T: Scalar>() -> bool {
    &&& forall|x: T| !#[trigger] x.above_spec(x)
    &&& forall|x: T, y: T, z: T|
        #![trigger x.above_spec(y), y.above_spec(z)]
        x.above_spec(y) && y.above_spec(z) ==> x.above_spec(z)
}

proof fn lemma_ranked<T: Scalar>(sim: Seq<Seq<T>>, t: int)
    requires
        ordered::<T>(),
        0 <= t <= 1296,
    ensures
        ({
            let r = ranked(sim, t);
            &&& forall|u: int|
                0 <= u < t && #[trigger] injective(u) ==> !score_of(sim, u).above_spec(r.best)
            &&& forall|u: int|
                0 <= u < t && #[trigger] injective(u) && r.map != Some(u) ==> !score_of(
                    sim,
                    u,
                ).above_spec(r.second)
            &&& r.map matches Some(w) ==> {
                &&& 0 <= w < t
                &&& injective(w)
                &&& r.best == score_of(sim, w)
                &&& r.best.above_spec(T::lowest_spec())
                &&& forall|u: int|
                    0 <= u < w && #[trigger] injective(u) ==> !score_of(sim, u).above_spec(r.best)
                        && score_of(sim, u) != r.best
            }
            &&& r.map is None ==> r.best == T::lowest_spec()
            &&& r.second == T::lowest_spec() || exists|v: int|
                0 <= v < t && #[trigger] injective(v) && r.map != Some(v) && r.second == score_of(
                    sim,
                    v,
                )
        }),
    decreases t,
{
    if t > 0 {
        lemma_ranked(sim, t - 1);
        let (p, r, u) = (ranked(sim, t - 1), ranked(sim, t), t - 1);
        let s = score_of(sim, u);
        if injective(u) && s.above_spec(p.best) {
            if let Some(w) = p.map {
                assert(injective(w));
            }
            assert forall|v: int| 0 <= v < u && #[trigger] injective(v) implies score_of(sim, v)
                != s by {
                assert(!score_of(sim, v).above_spec(p.best));
            }
        } else if injective(u) && s.above_spec(p.second) {
            assert(r.second == score_of(sim, u));
        } else if p.second != T::lowest_spec() {
            let v = choose|v: int|
                0 <= v < t - 1 && #[trigger] injective(v) && p.map != Some(v) && p.second
                    == score_of(sim, v);
            assert(injective(v));
        }
    }
}

/// Where some assignment scores above the lowest number, and numbers are ordered: the
/// assignment is injective, no other scores higher, and none before it scores as high.
pub proof fn lemma_assignment_best<T: Scalar>(sim: Seq<Seq<T>>, t: int)
    requires
        ordered::<T>(),
        injective(t),
        score_of(sim, t).above_spec(T::lowest_spec()),
    ensures
        ({
            let r = ranked(sim, 1296);
            &&& r.map matches Some(w)
            &&& injective(w)
            &&& r.best == score_of(sim, w)
            &&& !score_of(sim, t).above_spec(r.best)
            &&& t < w ==> score_of(sim, t) != r.best
        }),
{
    lemma_ranked(sim, 1296);
}

/// The runner-up is the best of the others: no other assignment scores higher than it, and
/// it is the score of one of them.
pub proof fn lemma_runner_up<T: Scalar>(sim: Seq<Seq<T>>, t: int)
    requires
        ordered::<T>(),
        injective(t),
        ranked(sim, 1296).map != Some(t),
    ensures
        ({
            let r = ranked(sim, 1296);
            &&& !score_of(sim, t).above_spec(r.second)
            &&& score_of(sim, t).above_spec(T::lowest_spec()) ==> r.second != T::lowest_spec()
                && exists|v: int| #[trigger]
                injective(v) && r.map != Some(v) && r.second == score_of(sim, v)
        }),
{
    lemma_ranked(sim, 1296);
}

proof fn lemma_map_injective<T: Scalar>(sim: Seq<Seq<T>>, t: int)
    ensures
        ranked(sim, t).map matches Some(w) ==> injective(w),
    decreases t,
{
    if t > 0 {
        lemma_map_injective(sim, t - 1);
    }
}

/// Slots are candidates, and no two prompts share one, whatever the similarities: unless no
/// sum at all is above the lowest number.
pub proof fn lemma_slots_distinct<T: Scalar>(sim: Seq<Seq<T>>, i: int, j: int)
    requires
        0 <= i < j < 4,
    ensures
        slots_of(ranked(sim, 1296))[i] < 6,
        slots_of(ranked(sim, 1296))[j] < 6,
        ranked(sim, 1296).map is Some ==> slots_of(ranked(sim, 1296))[i] != slots_of(
            ranked(sim, 1296),
        )[j],
{
    lemma_map_injective(sim, 1296);
}

/// How many of the maps before `t` are injective.
pub open spec fn permutations(t: int) -> int
    decreases t,
{
    if t <= 0 {
        0
    } else {
        permutations(t - 1) + if injective(t - 1) {
            1int
        } else {
            0
        }
    }
}

/// One more map.
proof fn lemma_one_more(a: int, b: int, c: int, d: int)
    requires
        0 <= a < 6,
        0 <= b < 6,
        0 <= c < 6,
        0 <= d < 6,
    ensures
        ({
            let t = 216 * a + 36 * b + 6 * c + d;
            permutations(t + 1) == permutations(t) + if a != b && a != c && b != c && d != a && d
                != b && d != c {
                1int
            } else {
                0
            }
        }),
{
    let t = 216 * a + 36 * b + 6 * c + d;
    assert(t / 216 == a && t / 36 == 6 * a + b && t / 6 == 36 * a + 6 * b + c && t % 6 == d);
    assert((6 * a + b) % 6 == b && (36 * a + 6 * b + c) % 6 == c);
}

/// The maps that share their first three slots.
proof fn lemma_last_slots(a: int, b: int, c: int)
    requires
        0 <= a < 6,
        0 <= b < 6,
        0 <= c < 6,
    ensures
        ({
            let t = 216 * a + 36 * b + 6 * c;
            permutations(t + 6) == permutations(t) + if a != b && a != c && b != c {
                3int
            } else {
                0
            }
        }),
{
    lemma_one_more(a, b, c, 0);
    lemma_one_more(a, b, c, 1);
    lemma_one_more(a, b, c, 2);
    lemma_one_more(a, b, c, 3);
    lemma_one_more(a, b, c, 4);
    lemma_one_more(a, b, c, 5);
}

/// The maps that share their first two slots.
proof fn lemma_third_slots(a: int, b: int)
    requires
        0 <= a < 6,
        0 <= b < 6,
    ensures
        permutations(216 * a + 36 * b + 36) == permutations(216 * a + 36 * b) + if a != b {
            12int
        } else {
            0
        },
{
    lemma_last_slots(a, b, 0);
    lemma_last_slots(a, b, 1);
    lemma_last_slots(a, b, 2);
    lemma_last_slots(a, b, 3);
    lemma_last_slots(a, b, 4);
    lemma_last_slots(a, b, 5);
}

/// The maps that share their first slot.
proof fn lemma_second_slots(a: int)
    requires
        0 <= a < 6,
    ensures
        permutations(216 * a + 216) == permutations(216 * a) + 60,
{
    lemma_third_slots(a, 0);
    lemma_third_slots(a, 1);
    lemma_third_slots(a, 2);
    lemma_third_slots(a, 3);
    lemma_third_slots(a, 4);
    lemma_third_slots(a, 5);
}

/// There are 360 of them.
pub proof fn lemma_permutations()
    ensures
        permutations(1296) == 360,
{
    lemma_second_slots(0);
    lemma_second_slots(1);
    lemma_second_slots(2);
    lemma_second_slots(3);
    lemma_second_slots(4);
    lemma_second_slots(5);
}

/// The best score is at least the second best: neither is a NaN, and the margin is not
/// negative.
pub proof fn lemma_margin(sim: Seq<Seq<Single>>)
    ensures
        ({
            let r = ranked(sim, 1296);
            &&& !is_nan(r.best.0)
            &&& !is_nan(r.second.0)
            &&& !r.second.above_spec(r.best)
            &&& !Single::zero_spec().above_spec(r.best.minus_spec(r.second))
        }),
{
    lemma_no_nan(sim, 1296);
    let r = ranked(sim, 1296);
    lemma_difference(r.best.0, r.second.0);
}

proof fn lemma_no_nan(sim: Seq<Seq<Single>>, t: int)
    ensures
        ({
            let r = ranked(sim, t);
            &&& !is_nan(r.best.0)
            &&& !is_nan(r.second.0)
            &&& !r.second.above_spec(r.best)
        }),
    decreases t,
{
    if t > 0 {
        lemma_no_nan(sim, t - 1);
    }
}

/// Single-precision numbers are ordered.
pub proof fn lemma_singles_ordered()
    ensures
        ordered::<Single>(),
{
}

/// What is assigned: four different slots, whose similarities sum to the score, no four
/// different slots having a larger sum. Of equal sums it is the first in lexicographic order.
/// All that is asked of numbers is that they are ordered, and of the score that it is a number
/// above the lowest.
pub proof fn lemma_assigned<T: Scalar>(
    sim: [[T; 6]; 4],
    r: Assignment<T>,
    a: int,
    b: int,
    c: int,
    d: int,
)
    requires
        ordered::<T>(),
        call_ensures(assign::<T>, (&sim,), r),
        0 <= a < 6,
        0 <= b < 6,
        0 <= c < 6,
        0 <= d < 6,
        a != b && a != c && a != d && b != c && b != d && c != d,
    ensures
        ({
            let sum = sim[0][a].plus_spec(sim[1][b]).plus_spec(sim[2][c]).plus_spec(sim[3][d]);
            let (i, j, k, l) = (r.slots[0], r.slots[1], r.slots[2], r.slots[3]);
            &&& !sum.above_spec(r.score)
            &&& sum.above_spec(T::lowest_spec()) ==> r.score.above_spec(T::lowest_spec())
            &&& r.score.above_spec(T::lowest_spec()) ==> {
                &&& i < 6 && j < 6 && k < 6 && l < 6
                &&& i != j && i != k && i != l && j != k && j != l && k != l
                &&& r.score == sim[0][i as int].plus_spec(sim[1][j as int]).plus_spec(
                    sim[2][k as int],
                ).plus_spec(sim[3][l as int])
                &&& sum == r.score ==> {
                    ||| i < a
                    ||| i == a && j < b
                    ||| i == a && j == b && k < c
                    ||| i == a && j == b && k == c && l <= d
                }
            }
        }),
{
    let grid = grid_of(sim);
    let slots = slots_of(ranked(grid, 1296));
    lemma_no_larger_sum(grid, slots, r.score, a, b, c, d);
    if r.score.above_spec(T::lowest_spec()) {
        lemma_score_is_a_sum(grid, slots, r.score);
    }
}

/// Where a second matrix has the same similarities at the slots that are assigned for a first,
/// its score is not below that of the first.
pub proof fn lemma_score_is_kept(
    sim: [[Single; 6]; 4],
    more: [[Single; 6]; 4],
    r: Assignment<Single>,
    q: Assignment<Single>,
)
    requires
        call_ensures(assign::<Single>, (&sim,), r),
        call_ensures(assign::<Single>, (&more,), q),
        r.score.above_spec(Single::lowest_spec()),
        ({
            let (i, j, k, l) = (r.slots[0], r.slots[1], r.slots[2], r.slots[3]);
            sim[0][i as int] == more[0][i as int] && sim[1][j as int] == more[1][j as int]
                && sim[2][k as int] == more[2][k as int] && sim[3][l as int] == more[3][l as int]
        }),
    ensures
        !r.score.above_spec(q.score),
{
    lemma_singles_ordered();
    lemma_assigned(sim, r, 0, 1, 2, 3);
    let (i, j, k, l) = (r.slots[0], r.slots[1], r.slots[2], r.slots[3]);
    lemma_assigned(more, q, i as int, j as int, k as int, l as int);
}

/// The margin is how far the score is ahead of the best sum of any other four different slots.
pub proof fn lemma_assigned_margin<T: Scalar>(
    sim: [[T; 6]; 4],
    r: Assignment<T>,
    a: int,
    b: int,
    c: int,
    d: int,
) -> (e: (int, int, int, int))
    requires
        ordered::<T>(),
        call_ensures(assign::<T>, (&sim,), r),
        0 <= a < 6,
        0 <= b < 6,
        0 <= c < 6,
        0 <= d < 6,
        a != b && a != c && a != d && b != c && b != d && c != d,
        a != r.slots[0] || b != r.slots[1] || c != r.slots[2] || d != r.slots[3],
        sim[0][a].plus_spec(sim[1][b]).plus_spec(sim[2][c]).plus_spec(sim[3][d]).above_spec(
            T::lowest_spec(),
        ),
    ensures
        ({
            let sum = sim[0][a].plus_spec(sim[1][b]).plus_spec(sim[2][c]).plus_spec(sim[3][d]);
            let next = sim[0][e.0].plus_spec(sim[1][e.1]).plus_spec(sim[2][e.2]).plus_spec(
                sim[3][e.3],
            );
            &&& 0 <= e.0 < 6 && 0 <= e.1 < 6 && 0 <= e.2 < 6 && 0 <= e.3 < 6
            &&& e.0 != e.1 && e.0 != e.2 && e.0 != e.3 && e.1 != e.2 && e.1 != e.3 && e.2 != e.3
            &&& e.0 != r.slots[0] || e.1 != r.slots[1] || e.2 != r.slots[2] || e.3 != r.slots[3]
            &&& r.margin == r.score.minus_spec(next)
            &&& !sum.above_spec(next)
        }),
{
    let grid = grid_of(sim);
    let slots = slots_of(ranked(grid, 1296));
    assert(r.slots@ == slots);
    lemma_margin_is_the_lead(grid, slots, r.score, r.margin, a, b, c, d)
}

/// With single-precision numbers, wherever some four different slots have a sum that is a
/// number and not negative infinity, the score is the largest sum there is, and the slots are
/// ones that have it: no similarity counts for more or less than it is.
pub proof fn lemma_assigned_singles(
    sim: [[Single; 6]; 4],
    r: Assignment<Single>,
    a: int,
    b: int,
    c: int,
    d: int,
)
    requires
        call_ensures(assign::<Single>, (&sim,), r),
        0 <= a < 6,
        0 <= b < 6,
        0 <= c < 6,
        0 <= d < 6,
        a != b && a != c && a != d && b != c && b != d && c != d,
        ({
            let s = sum(sum(sum(sim[0][a].0, sim[1][b].0), sim[2][c].0), sim[3][d].0);
            !is_nan(s) && s != 0xFF80_0000
        }),
    ensures
        ({
            let s = sum(sum(sum(sim[0][a].0, sim[1][b].0), sim[2][c].0), sim[3][d].0);
            let (i, j, k, l) = (r.slots[0], r.slots[1], r.slots[2], r.slots[3]);
            &&& i < 6 && j < 6 && k < 6 && l < 6
            &&& i != j && i != k && i != l && j != k && j != l && k != l
            &&& r.score.0 == sum(
                sum(sum(sim[0][i as int].0, sim[1][j as int].0), sim[2][k as int].0),
                sim[3][l as int].0,
            )
            &&& !above(s, r.score.0)
            &&& finite(s) && finite(r.score.0) ==> value(s) <= value(r.score.0)
        }),
{
    lemma_singles_ordered();
    lemma_assigned(sim, r, a, b, c, d);
    let s = sum(sum(sum(sim[0][a].0, sim[1][b].0), sim[2][c].0), sim[3][d].0);
    assert(above(s, 0xFF80_0000));
    if finite(s) && finite(r.score.0) {
        lemma_order(s, r.score.0);
    }
}

} // verus!
