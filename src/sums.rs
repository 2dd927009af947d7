//! Sums of per-particle quantities over sequences of particles, and the
//! quadrant split that the tree is built from.
use crate::physics::{snapshot_wf, Particle, COORD_LIMIT, MASS_LIMIT};
use vstd::prelude::*;

verus! {

/// The sum of `f` over `ps`.
pub open spec fn total(ps: Seq<Particle>, f: spec_fn(Particle) -> int) -> int
    decreases ps.len(),
{
    if ps.len() == 0 {
        0
    } else {
        total(ps.drop_last(), f) + f(ps.last())
    }
}

pub open spec fn mass_of() -> spec_fn(Particle) -> int {
    |p: Particle| p.mass as int
}

pub open spec fn moment_x() -> spec_fn(Particle) -> int {
    |p: Particle| p.mass * p.pos.x
}

pub open spec fn moment_y() -> spec_fn(Particle) -> int {
    |p: Particle| p.mass * p.pos.y
}

/// Which of the four quadrants around `(cx, cy)` holds `p`: 0 top-left,
/// 1 top-right, 2 bottom-left, 3 bottom-right. A coordinate equal to the
/// centre's falls to the left or bottom side.
pub open spec fn quadrant(p: Particle, cx: int, cy: int) -> int {
    if p.pos.x > cx {
        if p.pos.y > cy {
            1
        } else {
            3
        }
    } else {
        if p.pos.y > cy {
            0
        } else {
            2
        }
    }
}

/// The particles of `ps` in quadrant `q` around `(cx, cy)`, in their order in `ps`.
pub open spec fn in_quadrant(ps: Seq<Particle>, cx: int, cy: int, q: int) -> Seq<Particle>
    decreases ps.len(),
{
    if ps.len() == 0 {
        seq![]
    } else {
        let rest = in_quadrant(ps.drop_last(), cx, cy, q);
        if quadrant(ps.last(), cx, cy) == q {
            rest.push(ps.last())
        } else {
            rest
        }
    }
}

pub proof fn lemma_total_concat(a: Seq<Particle>, b: Seq<Particle>, f: spec_fn(Particle) -> int)
    ensures
        total(a + b, f) == total(a, f) + total(b, f),
    decreases b.len(),
{
    if b.len() == 0 {
        assert(a + b =~= a);
    } else {
        assert((a + b).drop_last() =~= a + b.drop_last());
        lemma_total_concat(a, b.drop_last(), f);
    }
}

pub proof fn lemma_total_prefix(ps: Seq<Particle>, i: int, f: spec_fn(Particle) -> int)
    requires
        0 <= i < ps.len(),
    ensures
        total(ps.subrange(0, i + 1), f) == total(ps.subrange(0, i), f) + f(ps[i]),
{
    assert(ps.subrange(0, i + 1).drop_last() =~= ps.subrange(0, i));
}

/// The split into quadrants keeps every sum and the count.
pub proof fn lemma_partition_total(ps: Seq<Particle>, cx: int, cy: int, f: spec_fn(Particle) -> int)
    ensures
        total(ps, f) == total(in_quadrant(ps, cx, cy, 0), f) + total(in_quadrant(ps, cx, cy, 1), f)
            + total(in_quadrant(ps, cx, cy, 2), f) + total(in_quadrant(ps, cx, cy, 3), f),
        ps.len() == in_quadrant(ps, cx, cy, 0).len() + in_quadrant(ps, cx, cy, 1).len()
            + in_quadrant(ps, cx, cy, 2).len() + in_quadrant(ps, cx, cy, 3).len(),
    decreases ps.len(),
{
    if ps.len() > 0 {
        lemma_partition_total(ps.drop_last(), cx, cy, f);
        let q = quadrant(ps.last(), cx, cy);
        assert(in_quadrant(ps, cx, cy, q).drop_last() =~= in_quadrant(ps.drop_last(), cx, cy, q));
    }
}

/// Every particle of a quadrant comes from `ps`.
pub proof fn lemma_in_quadrant_subset(ps: Seq<Particle>, cx: int, cy: int, q: int)
    ensures
        in_quadrant(ps, cx, cy, q).len() <= ps.len(),
        forall|i: int|
            0 <= i < in_quadrant(ps, cx, cy, q).len() ==> ps.contains(
                #[trigger] in_quadrant(ps, cx, cy, q)[i],
            ) && quadrant(in_quadrant(ps, cx, cy, q)[i], cx, cy) == q,
    decreases ps.len(),
{
    if ps.len() > 0 {
        lemma_in_quadrant_subset(ps.drop_last(), cx, cy, q);
        let rest = in_quadrant(ps.drop_last(), cx, cy, q);
        assert forall|i: int| 0 <= i < in_quadrant(ps, cx, cy, q).len() implies ps.contains(
            #[trigger] in_quadrant(ps, cx, cy, q)[i],
        ) && quadrant(in_quadrant(ps, cx, cy, q)[i], cx, cy) == q by {
            if i < rest.len() {
                let j = choose|j: int| 0 <= j < ps.drop_last().len() && ps.drop_last()[j] == rest[i];
                assert(ps[j] == in_quadrant(ps, cx, cy, q)[i]);
            } else {
                assert(ps[ps.len() - 1] == in_quadrant(ps, cx, cy, q)[i]);
            }
        }
    }
}

/// A sub-collection of a well-formed snapshot is well formed.
pub proof fn lemma_subset_wf(ps: Seq<Particle>, sub: Seq<Particle>)
    requires
        snapshot_wf(ps),
        sub.len() <= ps.len(),
        forall|i: int| 0 <= i < sub.len() ==> ps.contains(#[trigger] sub[i]),
    ensures
        snapshot_wf(sub),
{
    assert forall|i: int| 0 <= i < sub.len() implies (#[trigger] sub[i]).wf() by {
        assert(ps.contains(sub[i]));
    }
}

/// Masses of a well-formed snapshot add up to between `len` and `len * MASS_LIMIT`.
pub proof fn lemma_mass_bounds(ps: Seq<Particle>)
    requires
        forall|i: int| 0 <= i < ps.len() ==> (#[trigger] ps[i]).wf(),
    ensures
        ps.len() <= total(ps, mass_of()) <= ps.len() * MASS_LIMIT,
    decreases ps.len(),
{
    if ps.len() > 0 {
        assert(ps[ps.len() - 1].wf());
        lemma_mass_bounds(ps.drop_last());
    }
}

/// Mass-weighted coordinate sums of a well-formed snapshot are bounded by
/// `COORD_LIMIT` times the total mass.
pub proof fn lemma_moment_bounds(ps: Seq<Particle>)
    requires
        forall|i: int| 0 <= i < ps.len() ==> (#[trigger] ps[i]).wf(),
    ensures
        -(COORD_LIMIT * total(ps, mass_of())) <= total(ps, moment_x()) <= COORD_LIMIT * total(
            ps,
            mass_of(),
        ),
        -(COORD_LIMIT * total(ps, mass_of())) <= total(ps, moment_y()) <= COORD_LIMIT * total(
            ps,
            mass_of(),
        ),
    decreases ps.len(),
{
    if ps.len() > 0 {
        let p = ps[ps.len() - 1];
        assert(p.wf());
        lemma_moment_bounds(ps.drop_last());
        assert(-(COORD_LIMIT * p.mass) <= p.mass * p.pos.x <= COORD_LIMIT * p.mass) by (
        nonlinear_arith)
            requires
                -COORD_LIMIT <= p.pos.x <= COORD_LIMIT,
                p.mass >= 0,
        ;
        assert(-(COORD_LIMIT * p.mass) <= p.mass * p.pos.y <= COORD_LIMIT * p.mass) by (
        nonlinear_arith)
            requires
                -COORD_LIMIT <= p.pos.y <= COORD_LIMIT,
                p.mass >= 0,
        ;
        let m0 = total(ps.drop_last(), mass_of());
        assert(COORD_LIMIT * total(ps, mass_of()) == COORD_LIMIT * m0 + COORD_LIMIT * p.mass) by (
        nonlinear_arith)
            requires
                total(ps, mass_of()) == m0 + p.mass,
        ;
    }
}

} // verus!
