//! Force evaluation over a quadtree, with the opening-angle test.
use crate::physics::{
    apply_forces, copy_particles, force, force_in_range, force_pairs, integrated, step_outcome,
    exact_force_of, exact_x, exact_y, trunc_div, lemma_pair_force_bound, pair_force, snapshot_wf, vec_in_range, Force, Particle, Ratio,
    StepError, FORCE_LIMIT, FORCE_SCALE, MASS_LIMIT, MAX_PARTICLES, TOTAL_MASS_LIMIT,
};
use crate::quadtree::{
    lemma_above_floor, lemma_build_total, lemma_count_conserved, lemma_extrema, lemma_root_square,
    root_width, seq_max, seq_min, tree_of, in_square, x_of, y_of, BoxStats, Branch, Node,
    QuadTree, SCALE_LIMIT, WIDTH_LIMIT,
};
use crate::sums::{lemma_mass_bounds, lemma_total_concat, mass_of, moment_x, moment_y, total};
use vstd::arithmetic::div_mod::{lemma_div_by_multiple, lemma_div_is_ordered};
use vstd::prelude::*;

verus! {

/// The opening test: the aggregate of `s` stands for its particles when the
/// distance from `p` to the centre of mass, divided by the side of the square
/// (`width / scale`), exceeds `th` (compared exactly, on squares).
pub open spec fn accepts(p: Particle, s: BoxStats, th: Ratio) -> bool {
    let dx = s.com.pos.x - p.pos.x;
    let dy = s.com.pos.y - p.pos.y;
    (dx * dx + dy * dy) * (th.den * th.den) * (s.scale * s.scale) > (th.num * th.num) * (s.width
        * s.width)
}

/// The force on `p` from the particles below `n`, with the opening test at
/// each internal node; a leaf holding `p` itself contributes nothing.
pub open spec fn contribution(p: Particle, n: Node, th: Ratio) -> (int, int)
    decreases n,
{
    match n {
        Node::Zero => (0, 0),
        Node::One(q) => if q == p {
            (0, 0)
        } else {
            pair_force(p, q)
        },
        Node::Many(s, b) => if accepts(p, s, th) {
            pair_force(p, s.com)
        } else {
            let a = contribution(p, *b.tl, th);
            let c = contribution(p, *b.tr, th);
            let d = contribution(p, *b.bl, th);
            let e = contribution(p, *b.br, th);
            (a.0 + c.0 + d.0 + e.0, a.1 + c.1 + d.1 + e.1)
        },
    }
}

/// `None` where the node holds no particle other than `p`: an empty node, or
/// a leaf holding `p`; otherwise the node's contribution.
pub open spec fn node_force(p: Particle, n: Node, th: Ratio) -> Option<(int, int)> {
    match n {
        Node::Zero => None,
        Node::One(q) => if q == p {
            None
        } else {
            Some(contribution(p, n, th))
        },
        Node::Many(_, _) => Some(contribution(p, n, th)),
    }
}

/// What a caller of the traversal needs: a well-formed target, a well-formed
/// node of at most `MAX_PARTICLES` particles, and a threshold with a non-zero
/// denominator.
pub open spec fn eval_ok(p: Particle, n: Node, th: Ratio) -> bool {
    &&& p.wf()
    &&& n.wf()
    &&& n.leaves().len() <= MAX_PARTICLES
    &&& th.wf()
}

/// Every leaf particle of a well-formed node is well formed.
pub proof fn lemma_leaves_wf(n: Node)
    requires
        n.wf(),
    ensures
        forall|i: int| 0 <= i < n.leaves().len() ==> (#[trigger] n.leaves()[i]).wf(),
    decreases n,
{
    match n {
        Node::Zero => {
            assert(n.leaves() =~= Seq::<Particle>::empty());
        },
        Node::One(p) => {
            assert(n.leaves() =~= seq![p]);
        },
        Node::Many(_, b) => {
            lemma_leaves_wf(*b.tl);
            lemma_leaves_wf(*b.tr);
            lemma_leaves_wf(*b.bl);
            lemma_leaves_wf(*b.br);
            let (l0, l1, l2, l3) = (b.tl.leaves(), b.tr.leaves(), b.bl.leaves(), b.br.leaves());
            assert(n.leaves() == l0 + l1 + l2 + l3);
            assert forall|i: int| 0 <= i < n.leaves().len() implies (#[trigger] n.leaves()[i]).wf() by {
                if i < l0.len() {
                    assert(n.leaves()[i] == l0[i]);
                } else if i < l0.len() + l1.len() {
                    assert(n.leaves()[i] == l1[i - l0.len()]);
                } else if i < l0.len() + l1.len() + l2.len() {
                    assert(n.leaves()[i] == l2[i - l0.len() - l1.len()]);
                } else {
                    assert(n.leaves()[i] == l3[i - l0.len() - l1.len() - l2.len()]);
                }
            }
        },
    }
}

/// The mass below a well-formed node of at most `MAX_PARTICLES` particles is
/// within `TOTAL_MASS_LIMIT`.
pub proof fn lemma_node_mass(n: Node)
    requires
        n.wf(),
        n.leaves().len() <= MAX_PARTICLES,
    ensures
        0 <= total(n.leaves(), mass_of()) <= TOTAL_MASS_LIMIT,
{
    lemma_leaves_wf(n);
    lemma_mass_bounds(n.leaves());
    assert(n.leaves().len() * MASS_LIMIT <= TOTAL_MASS_LIMIT) by (nonlinear_arith)
        requires
            n.leaves().len() <= MAX_PARTICLES,
    ;
}

/// Each component of a contribution is at most `FORCE_SCALE * m * M` in
/// absolute value, where `m` is the target's mass and `M` the node's.
pub proof fn lemma_contribution_bound(p: Particle, n: Node, th: Ratio)
    requires
        n.wf(),
        p.mass >= 0,
    ensures
        ({
            let b = FORCE_SCALE * p.mass * total(n.leaves(), mass_of());
            let c = contribution(p, n, th);
            -b <= c.0 <= b && -b <= c.1 <= b
        }),
    decreases n,
{
    match n {
        Node::Zero => {
            assert(n.leaves() =~= Seq::<Particle>::empty());
        },
        Node::One(q) => {
            lemma_pair_force_bound(p, q);
            assert(n.leaves() =~= seq![q]);
            assert(n.leaves().drop_last() =~= Seq::<Particle>::empty());
            assert(total(Seq::<Particle>::empty(), mass_of()) == 0);
            assert(total(n.leaves(), mass_of()) == q.mass);
        },
        Node::Many(s, b) => {
            if accepts(p, s, th) {
                lemma_pair_force_bound(p, s.com);
            } else {
                let (l0, l1, l2, l3) = (b.tl.leaves(), b.tr.leaves(), b.bl.leaves(), b.br.leaves());
                lemma_contribution_bound(p, *b.tl, th);
                lemma_contribution_bound(p, *b.tr, th);
                lemma_contribution_bound(p, *b.bl, th);
                lemma_contribution_bound(p, *b.br, th);
                lemma_total_concat(l0, l1, mass_of());
                lemma_total_concat(l0 + l1, l2, mass_of());
                lemma_total_concat(l0 + l1 + l2, l3, mass_of());
                let k = FORCE_SCALE * p.mass;
                let (m0, m1, m2, m3) = (
                    total(l0, mass_of()),
                    total(l1, mass_of()),
                    total(l2, mass_of()),
                    total(l3, mass_of()),
                );
                assert(k * (m0 + m1 + m2 + m3) == k * m0 + k * m1 + k * m2 + k * m3) by (
                nonlinear_arith);
                assert(FORCE_SCALE * p.mass * total(n.leaves(), mass_of()) == k * (m0 + m1 + m2
                    + m3)) by (nonlinear_arith)
                    requires
                        k == FORCE_SCALE * p.mass,
                        total(n.leaves(), mass_of()) == m0 + m1 + m2 + m3,
                ;
                assert(FORCE_SCALE * p.mass * m0 == k * m0);
                assert(FORCE_SCALE * p.mass * m1 == k * m1);
                assert(FORCE_SCALE * p.mass * m2 == k * m2);
                assert(FORCE_SCALE * p.mass * m3 == k * m3);
            }
        },
    }
}

/// The opening test, computed exactly.
fn accepts_exec(p: &Particle, s: &BoxStats, th: Ratio) -> (r: bool)
    requires
        vec_in_range(p.pos),
        vec_in_range(s.com.pos),
        1 <= s.scale <= SCALE_LIMIT,
        s.width <= WIDTH_LIMIT,
    ensures
        r == accepts(*p, *s, th),
{
    let dx: i128 = s.com.pos.x as i128 - p.pos.x as i128;
    let dy: i128 = s.com.pos.y as i128 - p.pos.y as i128;
    assert(0 <= dx * dx <= 0x4000_0000_0000_0000int && 0 <= dy * dy <= 0x4000_0000_0000_0000int)
        by (nonlinear_arith)
        requires
            -0x8000_0000int <= dx <= 0x8000_0000int,
            -0x8000_0000int <= dy <= 0x8000_0000int,
    ;
    let d2 = (dx * dx + dy * dy) as u128;
    let den = th.den as u128;
    let num = th.num as u128;
    let w = s.width as u128;
    let sc = s.scale as u128;
    assert(den * den <= 0xffff_fffe_0000_0001int && num * num <= 0xffff_fffe_0000_0001int) by (
    nonlinear_arith)
        requires
            den <= 0xffff_ffffint,
            num <= 0xffff_ffffint,
    ;
    assert(w * w <= 0x4000_0000_0000_0000int) by (nonlinear_arith)
        requires
            w <= 0x8000_0000int,
    ;
    assert(1 <= sc * sc <= 0x1_0000_0000_0000_0000int) by (nonlinear_arith)
        requires
            1 <= sc <= 0x1_0000_0000int,
    ;
    let den2 = den * den;
    let num2 = num * num;
    let w2 = w * w;
    let sc2 = sc * sc;
    assert(d2 * den2 <= 0x8000_0000_0000_0000int * 0xffff_fffe_0000_0001int) by (
    nonlinear_arith)
        requires
            d2 <= 0x8000_0000_0000_0000int,
            den2 <= 0xffff_fffe_0000_0001int,
    ;
    assert(num2 * w2 <= 0xffff_fffe_0000_0001int * 0x4000_0000_0000_0000int) by (
    nonlinear_arith)
        requires
            num2 <= 0xffff_fffe_0000_0001int,
            w2 <= 0x4000_0000_0000_0000int,
    ;
    let lhs = d2 * den2;
    let rhs = num2 * w2;
    proof {
        lemma_above_floor(lhs as int, rhs as int, sc2 as int);
        assert(sc2 * lhs == (dx * dx + dy * dy) * (th.den * th.den) * (s.scale * s.scale)) by (
        nonlinear_arith)
            requires
                sc2 == s.scale * s.scale,
                lhs == d2 * den2,
                d2 == dx * dx + dy * dy,
                den2 == th.den * th.den,
        ;
    }
    lhs > rhs / sc2
}

/// The force on `p` from the particles below `node`, or `None` where the node
/// holds no particle other than `p` (see `node_force`).
pub fn bh_force(p: &Particle, node: &Node, threshold: Ratio) -> (r: Option<Force>)
    requires
        eval_ok(*p, *node, threshold),
    ensures
        r is None <==> node_force(*p, *node, threshold) is None,
        r matches Some(f) ==> node_force(*p, *node, threshold) == Some((f.x as int, f.y as int)),
    decreases node,
{
    match node {
        Node::One(q) => {
            if *p == *q {
                None
            } else {
                Some(force(p, q))
            }
        },
        Node::Zero => None,
        Node::Many(stats, branch) => {
            proof {
                lemma_node_mass(*node);
            }
            if accepts_exec(p, stats, threshold) {
                Some(force(p, &stats.com))
            } else {
                Some(force_branch(p, node, branch, threshold))
            }
        },
    }
}

/// The sum of the contributions of the four children of `node`.
fn force_branch(p: &Particle, node: &Node, branch: &Branch, threshold: Ratio) -> (r: Force)
    requires
        eval_ok(*p, *node, threshold),
        node matches Node::Many(_, b) && b == *branch,
    ensures
        ({
            let a = contribution(*p, *branch.tl, threshold);
            let c = contribution(*p, *branch.tr, threshold);
            let d = contribution(*p, *branch.bl, threshold);
            let e = contribution(*p, *branch.br, threshold);
            r.x == a.0 + c.0 + d.0 + e.0 && r.y == a.1 + c.1 + d.1 + e.1
        }),
    decreases branch,
{
    let ghost (l0, l1, l2, l3) = (branch.tl.leaves(), branch.tr.leaves(), branch.bl.leaves(), branch.br.leaves());
    proof {
        lemma_node_mass(*node);
        lemma_total_concat(l0, l1, mass_of());
        lemma_total_concat(l0 + l1, l2, mass_of());
        lemma_total_concat(l0 + l1 + l2, l3, mass_of());
        lemma_contribution_bound(*p, *branch.tl, threshold);
        lemma_contribution_bound(*p, *branch.tr, threshold);
        lemma_contribution_bound(*p, *branch.bl, threshold);
        lemma_contribution_bound(*p, *branch.br, threshold);
        assert(total(l0, mass_of()) >= 0 && total(l1, mass_of()) >= 0 && total(l2, mass_of()) >= 0
            && total(l3, mass_of()) >= 0) by {
            lemma_node_mass(*branch.tl);
            lemma_node_mass(*branch.tr);
            lemma_node_mass(*branch.bl);
            lemma_node_mass(*branch.br);
        }
        let k = FORCE_SCALE * p.mass;
        assert(k <= 0x10_0000_0000int);
        let (m0, m1, m2, m3) = (
            total(l0, mass_of()),
            total(l1, mass_of()),
            total(l2, mass_of()),
            total(l3, mass_of()),
        );
        assert(k * m0 + k * m1 + k * m2 + k * m3 <= 0x10_0000_0000int * TOTAL_MASS_LIMIT) by (
        nonlinear_arith)
            requires
                0 <= k <= 0x10_0000_0000int,
                m0 >= 0,
                m1 >= 0,
                m2 >= 0,
                m3 >= 0,
                m0 + m1 + m2 + m3 <= TOTAL_MASS_LIMIT,
        ;
        assert(0 <= k * m0 && 0 <= k * m1 && 0 <= k * m2 && 0 <= k * m3) by (nonlinear_arith)
            requires
                0 <= k,
                m0 >= 0,
                m1 >= 0,
                m2 >= 0,
                m3 >= 0,
        ;
        assert(FORCE_SCALE * p.mass * m0 == k * m0);
        assert(FORCE_SCALE * p.mass * m1 == k * m1);
        assert(FORCE_SCALE * p.mass * m2 == k * m2);
        assert(FORCE_SCALE * p.mass * m3 == k * m3);
    }
    let mut tot_force = Force::zero();
    match bh_force(p, &branch.tl, threshold) {
        Some(v) => tot_force.add(&v),
        None => (),
    }
    match bh_force(p, &branch.tr, threshold) {
        Some(v) => tot_force.add(&v),
        None => (),
    }
    match bh_force(p, &branch.bl, threshold) {
        Some(v) => tot_force.add(&v),
        None => (),
    }
    match bh_force(p, &branch.br, threshold) {
        Some(v) => tot_force.add(&v),
        None => (),
    }
    tot_force
}

impl QuadTree {
    /// The approximate force on `p` from the whole tree.
    pub fn force(&self, p: Particle, threshold: Ratio) -> (r: Force)
        requires
            self.wf(),
            p.wf(),
            threshold.wf(),
        ensures
            (r.x as int, r.y as int) == contribution(p, self.root, threshold),
    {
        match bh_force(&p, &self.root, threshold) {
            Some(f) => f,
            None => Force::zero(),
        }
    }
}

/// The force on each particle of `ps` from the tree of `ps`.
pub open spec fn tree_force(ps: Seq<Particle>, i: int, th: Ratio) -> (int, int) {
    contribution(ps[i], tree_of(ps), th)
}

/// Forces stay within what the integrator takes.
proof fn lemma_tree_force_range(ps: Seq<Particle>, i: int, th: Ratio)
    requires
        snapshot_wf(ps),
        0 <= i < ps.len(),
    ensures
        -FORCE_LIMIT <= tree_force(ps, i, th).0 <= FORCE_LIMIT,
        -FORCE_LIMIT <= tree_force(ps, i, th).1 <= FORCE_LIMIT,
{
    let t = tree_of(ps);
    lemma_count_conserved(ps);
    lemma_node_mass(t);
    assert(ps[i].wf());
    lemma_contribution_bound(ps[i], t, th);
    assert(FORCE_SCALE * ps[i].mass * total(t.leaves(), mass_of()) <= FORCE_LIMIT) by (
    nonlinear_arith)
        requires
            0 <= ps[i].mass <= MASS_LIMIT,
            0 <= total(t.leaves(), mass_of()) <= TOTAL_MASS_LIMIT,
    ;
}

/// Forces on every particle of `particles` from `tree`.
fn tree_forces(tree: &QuadTree, particles: &Vec<Particle>, threshold: Ratio) -> (r: Vec<Force>)
    requires
        snapshot_wf(particles@),
        particles@.len() >= 1,
        tree.root == tree_of(particles@),
        tree.wf(),
        threshold.wf(),
    ensures
        r@.len() == particles@.len(),
        forall|i: int|
            0 <= i < r@.len() ==> (#[trigger] r@[i]).x == tree_force(particles@, i, threshold).0
                && r@[i].y == tree_force(particles@, i, threshold).1,
        forall|i: int| 0 <= i < r@.len() ==> force_in_range(#[trigger] r@[i]),
{
    let ghost ps = particles@;
    let mut frcs: Vec<Force> = Vec::new();
    let mut i: usize = 0;
    while i < particles.len()
        invariant
            i <= ps.len(),
            ps == particles@,
            snapshot_wf(ps),
            tree.root == tree_of(ps),
            tree.wf(),
            threshold.wf(),
            frcs@.len() == i,
            forall|k: int|
                0 <= k < i ==> (#[trigger] frcs@[k]).x == tree_force(ps, k, threshold).0
                    && frcs@[k].y == tree_force(ps, k, threshold).1,
            forall|k: int| 0 <= k < i ==> force_in_range(#[trigger] frcs@[k]),
        decreases ps.len() - i,
    {
        proof {
            assert(ps[i as int].wf());
            lemma_tree_force_range(ps, i as int, threshold);
        }
        let f = tree.force(particles[i], threshold);
        frcs.push(f);
        i += 1;
    }
    frcs
}

/// The forces on all particles of `ps` from the tree of `ps`.
pub open spec fn tree_forces_of(ps: Seq<Particle>, th: Ratio) -> Seq<(int, int)> {
    Seq::new(ps.len(), |i: int| tree_force(ps, i, th))
}

/// One Barnes-Hut step: builds the tree of the snapshot, evaluates the force
/// on every particle through it, then integrates every particle (see
/// `step_outcome`). Where that is refused, nothing changes and the result is
/// `OutOfRange`. An empty snapshot stays empty.
pub fn stepsim(particles: &mut Vec<Particle>, threshold: Ratio, dt: Ratio) -> (r: Result<
    (),
    StepError,
>)
    requires
        snapshot_wf(old(particles)@),
        threshold.wf(),
        dt.wf(),
    ensures
        match step_outcome(old(particles)@, tree_forces_of(old(particles)@, threshold), dt) {
            Some(next) => r is Ok && final(particles)@ == next,
            None => r == Err::<(), StepError>(StepError::OutOfRange) && final(particles)@ == old(
                particles,
            )@,
        },
        r is Ok ==> snapshot_wf(final(particles)@),
{
    let ghost ps = particles@;
    if particles.len() == 0 {
        assert(step_outcome(ps, tree_forces_of(ps, threshold), dt) == Some(ps)) by {
            assert(Seq::new(ps.len(), |i: int| integrated(ps[i], tree_forces_of(ps, threshold)[i], dt)) =~= ps);
        }
        return Ok(());
    }
    let built = QuadTree::new(copy_particles(particles));
    match built {
        Err(_) => Ok(()),
        Ok(qt) => {
            let frcs = tree_forces(&qt, particles, threshold);
            assert(force_pairs(frcs@) =~= tree_forces_of(ps, threshold));
            apply_forces(particles, &frcs, dt)
        },
    }
}

/// No internal node below `n` passes the opening test for `p`: the traversal
/// reaches every leaf.
pub open spec fn fully_opened(p: Particle, n: Node, th: Ratio) -> bool
    decreases n,
{
    match n {
        Node::Many(s, b) => {
            &&& !accepts(p, s, th)
            &&& fully_opened(p, *b.tl, th)
            &&& fully_opened(p, *b.tr, th)
            &&& fully_opened(p, *b.bl, th)
            &&& fully_opened(p, *b.br, th)
        },
        _ => true,
    }
}

/// A traversal that reaches every leaf sums the exact pairwise forces of the leaves.
pub proof fn lemma_opened_node_is_exact(p: Particle, n: Node, th: Ratio)
    requires
        fully_opened(p, n, th),
    ensures
        contribution(p, n, th) == exact_force_of(n.leaves(), p),
    decreases n,
{
    match n {
        Node::Zero => {
            assert(n.leaves() =~= Seq::<Particle>::empty());
        },
        Node::One(q) => {
            assert(n.leaves() =~= seq![q]);
            assert(n.leaves().drop_last() =~= Seq::<Particle>::empty());
            assert(total(Seq::<Particle>::empty(), exact_x(p)) == 0);
            assert(total(Seq::<Particle>::empty(), exact_y(p)) == 0);
        },
        Node::Many(_, b) => {
            let (l0, l1, l2, l3) = (b.tl.leaves(), b.tr.leaves(), b.bl.leaves(), b.br.leaves());
            lemma_opened_node_is_exact(p, *b.tl, th);
            lemma_opened_node_is_exact(p, *b.tr, th);
            lemma_opened_node_is_exact(p, *b.bl, th);
            lemma_opened_node_is_exact(p, *b.br, th);
            lemma_total_concat(l0, l1, exact_x(p));
            lemma_total_concat(l0 + l1, l2, exact_x(p));
            lemma_total_concat(l0 + l1 + l2, l3, exact_x(p));
            lemma_total_concat(l0, l1, exact_y(p));
            lemma_total_concat(l0 + l1, l2, exact_y(p));
            lemma_total_concat(l0 + l1 + l2, l3, exact_y(p));
        },
    }
}

/// With a threshold at which no internal node passes the opening test for
/// `p`, the force through the tree is exactly the pairwise sum over the snapshot.
pub proof fn lemma_full_opening_is_exact(ps: Seq<Particle>, p: Particle, th: Ratio)
    requires
        fully_opened(p, tree_of(ps), th),
    ensures
        contribution(p, tree_of(ps), th) == exact_force_of(ps, p),
{
    let cx = seq_min(ps, x_of()) + seq_max(ps, x_of());
    let cy = seq_min(ps, y_of()) + seq_max(ps, y_of());
    let w = root_width(ps) as nat;
    lemma_opened_node_is_exact(p, tree_of(ps), th);
    lemma_build_total(ps, cx, cy, 1, w, exact_x(p));
    lemma_build_total(ps, cx, cy, 1, w, exact_y(p));
}

/// A particle exerts no force on itself: a leaf holding the target contributes
/// nothing at any threshold, and neither does any particle at the target's position.
pub proof fn lemma_self_exclusion(p: Particle, q: Particle, th: Ratio)
    requires
        q.pos == p.pos,
    ensures
        contribution(p, Node::One(p), th) == (0int, 0int),
        node_force(p, Node::One(p), th) is None,
        pair_force(p, p) == (0int, 0int),
        pair_force(p, q) == (0int, 0int),
{
}

/// The largest threshold that a `Ratio` can state: `u32::MAX / 1`.
pub open spec fn widest_threshold() -> Ratio {
    Ratio { num: 0xffff_ffff, den: 1 }
}

/// Every leaf below `n` lies in the box `[lx, lx + b] x [ly, ly + b]`.
pub open spec fn leaves_in_box(n: Node, lx: int, ly: int, b: int) -> bool {
    forall|i: int|
        0 <= i < n.leaves().len() ==> lx <= (#[trigger] n.leaves()[i]).pos.x <= lx + b && ly
            <= n.leaves()[i].pos.y <= ly + b
}

proof fn lemma_children_in_box(n: Node, lx: int, ly: int, b: int)
    requires
        n is Many,
        leaves_in_box(n, lx, ly, b),
    ensures
        n matches Node::Many(_, c) && leaves_in_box(*c.tl, lx, ly, b) && leaves_in_box(
            *c.tr,
            lx,
            ly,
            b,
        ) && leaves_in_box(*c.bl, lx, ly, b) && leaves_in_box(*c.br, lx, ly, b),
{
    if let Node::Many(_, c) = n {
        let (l0, l1, l2, l3) = (c.tl.leaves(), c.tr.leaves(), c.bl.leaves(), c.br.leaves());
        let ls = n.leaves();
        assert(ls == l0 + l1 + l2 + l3);
        assert forall|i: int| 0 <= i < l0.len() implies lx <= (#[trigger] l0[i]).pos.x <= lx + b
            && ly <= l0[i].pos.y <= ly + b by {
            assert(ls[i] == l0[i]);
        }
        assert forall|i: int| 0 <= i < l1.len() implies lx <= (#[trigger] l1[i]).pos.x <= lx + b
            && ly <= l1[i].pos.y <= ly + b by {
            assert(ls[l0.len() + i] == l1[i]);
        }
        assert forall|i: int| 0 <= i < l2.len() implies lx <= (#[trigger] l2[i]).pos.x <= lx + b
            && ly <= l2[i].pos.y <= ly + b by {
            assert(ls[l0.len() + l1.len() + i] == l2[i]);
        }
        assert forall|i: int| 0 <= i < l3.len() implies lx <= (#[trigger] l3[i]).pos.x <= lx + b
            && ly <= l3[i].pos.y <= ly + b by {
            assert(ls[l0.len() + l1.len() + l2.len() + i] == l3[i]);
        }
    }
}

/// At the widest threshold no internal node of a well-formed tree passes the
/// opening test for a target within the tree's bounding box, when the box's
/// side `b` is at most `2^30`: no point of the box is `u32::MAX` sides of a
/// square away from another.
pub proof fn lemma_widest_threshold_opens(p: Particle, n: Node, lx: int, ly: int, b: int)
    requires
        n.wf(),
        0 <= b <= 0x4000_0000,
        n matches Node::Many(s, _) ==> s.width == b,
        leaves_in_box(n, lx, ly, b),
        lx <= p.pos.x <= lx + b,
        ly <= p.pos.y <= ly + b,
    ensures
        fully_opened(p, n, widest_threshold()),
    decreases n,
{
    if let Node::Many(s, c) = n {
        let ls = n.leaves();
        lemma_leaves_wf(n);
        lemma_mass_bounds(ls);
        assert forall|i: int| 0 <= i < ls.len() implies lx <= (if true {
            (#[trigger] ls[i]).pos.x as int
        } else {
            ls[i].pos.y as int
        }) <= lx + b by {}
        assert forall|i: int| 0 <= i < ls.len() implies ly <= (if false {
            (#[trigger] ls[i]).pos.x as int
        } else {
            ls[i].pos.y as int
        }) <= ly + b by {}
        lemma_moments_between(ls, lx, lx + b, true);
        lemma_moments_between(ls, ly, ly + b, false);
        lemma_trunc_div_between(total(ls, moment_x()), total(ls, mass_of()), lx, lx + b);
        lemma_trunc_div_between(total(ls, moment_y()), total(ls, mass_of()), ly, ly + b);
        let dx = s.com.pos.x - p.pos.x;
        let dy = s.com.pos.y - p.pos.y;
        let sc = s.scale as int;
        assert((dx * dx + dy * dy) * (1 * 1) * (sc * sc) <= (0xffff_ffffint * 0xffff_ffff) * (b
            * b)) by (nonlinear_arith)
            requires
                -b <= dx <= b,
                -b <= dy <= b,
                0 <= b <= 0x4000_0000,
                b == 0 || sc <= 2 * b,
                b == 0 ==> dx == 0 && dy == 0,
                sc >= 1,
        ;
        lemma_children_in_box(n, lx, ly, b);
        lemma_widest_threshold_opens(p, *c.tl, lx, ly, b);
        lemma_widest_threshold_opens(p, *c.tr, lx, ly, b);
        lemma_widest_threshold_opens(p, *c.bl, lx, ly, b);
        lemma_widest_threshold_opens(p, *c.br, lx, ly, b);
    }
}

/// Opening the tree far enough recovers the exact force: for every snapshot
/// whose bounding box has sides of at most `2^30`, and every particle of it,
/// the force through the tree at the widest threshold is exactly the pairwise
/// sum over the snapshot.
pub proof fn lemma_some_threshold_is_exact(ps: Seq<Particle>, p: Particle)
    requires
        snapshot_wf(ps),
        ps.contains(p),
        root_width(ps) <= 0x4000_0000,
    ensures
        fully_opened(p, tree_of(ps), widest_threshold()),
        contribution(p, tree_of(ps), widest_threshold()) == exact_force_of(ps, p),
{
    lemma_count_conserved(ps);
    lemma_extrema(ps, x_of());
    lemma_extrema(ps, y_of());
    let (lx, ly, b) = (seq_min(ps, x_of()), seq_min(ps, y_of()), root_width(ps));
    let t = tree_of(ps);
    assert forall|i: int| 0 <= i < t.leaves().len() implies lx <= (#[trigger] t.leaves()[i]).pos.x
        <= lx + b && ly <= t.leaves()[i].pos.y <= ly + b by {
        let j = choose|j: int| 0 <= j < ps.len() && ps[j] == t.leaves()[i];
        assert(x_of()(ps[j]) == ps[j].pos.x);
        assert(y_of()(ps[j]) == ps[j].pos.y);
    }
    let k = choose|k: int| 0 <= k < ps.len() && ps[k] == p;
    assert(x_of()(ps[k]) == p.pos.x);
    assert(y_of()(ps[k]) == p.pos.y);
    if ps.len() >= 2 {
        lemma_root_square(ps);
    }
    lemma_widest_threshold_opens(p, t, lx, ly, b);
    lemma_full_opening_is_exact(ps, p, widest_threshold());
}

/// `trunc_div(s, m)` lies between `lo` and `hi` when `s` lies between
/// `lo * m` and `hi * m`.
proof fn lemma_trunc_div_between(s: int, m: int, lo: int, hi: int)
    requires
        m > 0,
        lo * m <= s <= hi * m,
    ensures
        lo <= trunc_div(s, m) <= hi,
{
    if s >= 0 {
        assert(hi >= 0) by (nonlinear_arith)
            requires
                hi * m >= 0,
                m > 0,
        ;
        lemma_div_is_ordered(s, hi * m, m);
        lemma_div_by_multiple(hi, m);
        if lo > 0 {
            lemma_div_is_ordered(lo * m, s, m);
            lemma_div_by_multiple(lo, m);
        } else {
            lemma_div_is_ordered(0, s, m);
        }
    } else {
        assert(lo < 0) by (nonlinear_arith)
            requires
                lo * m < 0,
                m > 0,
        ;
        assert((-lo) * m == -(lo * m)) by (nonlinear_arith);
        assert((-hi) * m == -(hi * m)) by (nonlinear_arith);
        lemma_div_is_ordered(-s, (-lo) * m, m);
        lemma_div_by_multiple(-lo, m);
        if hi < 0 {
            lemma_div_is_ordered((-hi) * m, -s, m);
            lemma_div_by_multiple(-hi, m);
        } else {
            lemma_div_is_ordered(0, -s, m);
        }
    }
}

/// Mass-weighted sums of coordinates that lie between `lo` and `hi` lie
/// between `lo` and `hi` times the total mass.
proof fn lemma_moments_between(ls: Seq<Particle>, lo: int, hi: int, x_axis: bool)
    requires
        forall|i: int|
            0 <= i < ls.len() ==> lo <= (if x_axis {
                (#[trigger] ls[i]).pos.x as int
            } else {
                ls[i].pos.y as int
            }) <= hi,
    ensures
        lo * total(ls, mass_of()) <= total(ls, if x_axis {
            moment_x()
        } else {
            moment_y()
        }) <= hi * total(ls, mass_of()),
    decreases ls.len(),
{
    if ls.len() > 0 {
        let q = ls[ls.len() - 1];
        let v = if x_axis { q.pos.x as int } else { q.pos.y as int };
        lemma_moments_between(ls.drop_last(), lo, hi, x_axis);
        assert(lo * q.mass <= q.mass * v <= hi * q.mass) by (nonlinear_arith)
            requires
                lo <= v <= hi,
                q.mass >= 0,
        ;
        let m0 = total(ls.drop_last(), mass_of());
        assert(lo * (m0 + q.mass) == lo * m0 + lo * q.mass) by (nonlinear_arith);
        assert(hi * (m0 + q.mass) == hi * m0 + hi * q.mass) by (nonlinear_arith);
    }
}

/// The centre of mass of a well-formed internal node lies in the node's square.
proof fn lemma_com_in_square(n: Node)
    requires
        n.wf(),
        n is Many,
    ensures
        n matches Node::Many(s, _) && in_square(
            s.com,
            s.centre_x as int,
            s.centre_y as int,
            s.scale as int,
            s.width as int,
        ),
{
    if let Node::Many(s, _) = n {
        let ls = n.leaves();
        let (cx, cy, sc, w) = (s.centre_x as int, s.centre_y as int, s.scale as int, s.width as int);
        lemma_extrema(ls, x_of());
        lemma_extrema(ls, y_of());
        let (lx, hx) = (seq_min(ls, x_of()), seq_max(ls, x_of()));
        let (ly, hy) = (seq_min(ls, y_of()), seq_max(ls, y_of()));
        assert forall|i: int| 0 <= i < ls.len() implies lx <= (if true {
            (#[trigger] ls[i]).pos.x as int
        } else {
            ls[i].pos.y as int
        }) <= hx by {
            assert(x_of()(ls[i]) == ls[i].pos.x);
        }
        assert forall|i: int| 0 <= i < ls.len() implies ly <= (if false {
            (#[trigger] ls[i]).pos.x as int
        } else {
            ls[i].pos.y as int
        }) <= hy by {
            assert(y_of()(ls[i]) == ls[i].pos.y);
        }
        lemma_leaves_wf(n);
        lemma_mass_bounds(ls);
        lemma_moments_between(ls, lx, hx, true);
        lemma_moments_between(ls, ly, hy, false);
        lemma_trunc_div_between(total(ls, moment_x()), total(ls, mass_of()), lx, hx);
        lemma_trunc_div_between(total(ls, moment_y()), total(ls, mass_of()), ly, hy);
        let a = choose|a: int| 0 <= a < ls.len() && x_of()(ls[a]) == hx;
        let b = choose|b: int| 0 <= b < ls.len() && x_of()(ls[b]) == lx;
        let c = choose|c: int| 0 <= c < ls.len() && y_of()(ls[c]) == hy;
        let d = choose|d: int| 0 <= d < ls.len() && y_of()(ls[d]) == ly;
        assert(in_square(ls[a], cx, cy, sc, w) && in_square(ls[b], cx, cy, sc, w));
        assert(in_square(ls[c], cx, cy, sc, w) && in_square(ls[d], cx, cy, sc, w));
        let (vx, vy) = (s.com.pos.x as int, s.com.pos.y as int);
        assert(2 * sc * lx <= 2 * sc * vx <= 2 * sc * hx) by (nonlinear_arith)
            requires
                lx <= vx <= hx,
                sc >= 1,
        ;
        assert(2 * sc * ly <= 2 * sc * vy <= 2 * sc * hy) by (nonlinear_arith)
            requires
                ly <= vy <= hy,
                sc >= 1,
        ;
    }
}

/// A particle never pulls on itself through an aggregate: at a threshold of
/// at least the square root of 2, no internal node of a well-formed tree that
/// holds the target among its leaves passes the opening test for it, so the
/// traversal always opens such a node down to the target's own leaf, which
/// contributes nothing.
pub proof fn lemma_own_node_is_opened(p: Particle, n: Node, th: Ratio)
    requires
        n.wf(),
        n.leaves().contains(p),
        th.num * th.num >= 2 * (th.den * th.den),
    ensures
        n matches Node::Many(s, _) ==> !accepts(p, s, th),
{
    if let Node::Many(s, _) = n {
        let (cx, cy, sc, w) = (s.centre_x as int, s.centre_y as int, s.scale as int, s.width as int);
        let i = choose|i: int| 0 <= i < n.leaves().len() && n.leaves()[i] == p;
        assert(in_square(n.leaves()[i], cx, cy, sc, w));
        lemma_com_in_square(n);
        let dx = s.com.pos.x - p.pos.x;
        let dy = s.com.pos.y - p.pos.y;
        let (px, py, qx, qy) = (p.pos.x as int, p.pos.y as int, s.com.pos.x as int, s.com.pos.y as int);
        assert(sc * dx == sc * qx - sc * px && sc * dy == sc * qy - sc * py) by (nonlinear_arith)
            requires
                dx == qx - px,
                dy == qy - py,
        ;
        assert(2 * sc * px == 2 * (sc * px) && 2 * sc * qx == 2 * (sc * qx) && 2 * sc * py == 2 * (
        sc * py) && 2 * sc * qy == 2 * (sc * qy)) by (nonlinear_arith);
        assert(in_square(s.com, cx, cy, sc, w));
        let (num, den) = (th.num as int, th.den as int);
        assert((dx * dx + dy * dy) * (den * den) * (sc * sc) <= (num * num) * (w * w)) by (
        nonlinear_arith)
            requires
                -w <= sc * dx <= w,
                -w <= sc * dy <= w,
                num * num >= 2 * (den * den),
                den >= 0,
        ;
    }
}

/// References to the particles of `particles`, in order.
pub fn pcl_pointers<'a>(particles: &'a Vec<Particle>) -> (r: Vec<&'a Particle>)
    ensures
        r@.len() == particles@.len(),
        forall|i: int| 0 <= i < r@.len() ==> *r@[i] == particles@[i],
{
    let mut v: Vec<&Particle> = Vec::new();
    let mut i: usize = 0;
    while i < particles.len()
        invariant
            i <= particles@.len(),
            v@.len() == i,
            forall|k: int| 0 <= k < i ==> *v@[k] == particles@[k],
        decreases particles@.len() - i,
    {
        v.push(&particles[i]);
        i += 1;
    }
    v
}

} // verus!
