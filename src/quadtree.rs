//! The Barnes-Hut quadtree: its construction from a particle snapshot.
use crate::physics::{
    snapshot_wf, trunc_div, vec_in_range, Particle, PhysVec, COORD_LIMIT, MASS_LIMIT, MAX_PARTICLES, TOTAL_MASS_LIMIT,
};
use crate::physics::{trunc_div_exec, lemma_trunc_div_bound};
use vstd::arithmetic::div_mod::{
    lemma_div_by_multiple, lemma_div_is_ordered, lemma_fundamental_div_mod, lemma_mod_bound,
};
use crate::sums::{
    in_quadrant, lemma_in_quadrant_subset, lemma_mass_bounds, lemma_moment_bounds,
    lemma_partition_total, lemma_subset_wf, lemma_total_concat, lemma_total_prefix, mass_of,
    moment_x, moment_y, quadrant, total,
};
use vstd::prelude::*;

verus! {

/// Largest side of a bounding box, and so of a tree's root square.
pub const WIDTH_LIMIT: u64 = 2147483648;

/// Largest denominator of a tree square's geometry.
pub const SCALE_LIMIT: u64 = 4294967296;

/// Bound on `|centre| + side` of every square of a tree.
pub const SPAN_LIMIT: i64 = 4294967296;

/// Aggregate statistics of the particles of an internal node, with the node's
/// square. The square is centred on `(centre_x, centre_y) / (2 * scale)` and
/// its side is `width / scale` (`height / scale`, the same); `scale` is a power
/// of two, doubling from a node to its children.
#[derive(Clone, Copy, PartialEq, Eq, Structural, Debug)]
pub struct BoxStats {
    pub centre_x: i128,
    pub centre_y: i128,
    pub scale: u64,
    /// Synthetic particle: the centre of mass, carrying the total mass.
    pub com: Particle,
    pub width: u64,
    pub height: u64,
    pub num_particles: u64,
}

/// The four children of an internal node.
#[derive(PartialEq, Eq, Debug)]
pub struct Branch {
    pub tl: Box<Node>,
    pub tr: Box<Node>,
    pub bl: Box<Node>,
    pub br: Box<Node>,
}

/// A quadrant holding two or more particles, exactly one, or none.
#[derive(PartialEq, Eq, Debug)]
pub enum Node {
    Many(BoxStats, Branch),
    One(Particle),
    Zero,
}

/// The tree of one particle snapshot.
#[derive(PartialEq, Eq, Debug)]
pub struct QuadTree {
    pub root: Node,
}

/// Why no tree was built.
#[derive(Clone, Copy, PartialEq, Eq, Structural, Debug)]
pub enum BuildError {
    EmptyInput,
}

pub open spec fn x_of() -> spec_fn(Particle) -> int {
    |p: Particle| p.pos.x as int
}

pub open spec fn y_of() -> spec_fn(Particle) -> int {
    |p: Particle| p.pos.y as int
}

/// The largest value of `f` over a non-empty `ps`.
pub open spec fn seq_max(ps: Seq<Particle>, f: spec_fn(Particle) -> int) -> int
    decreases ps.len(),
{
    if ps.len() <= 1 {
        f(ps[0])
    } else {
        let m = seq_max(ps.drop_last(), f);
        if f(ps.last()) > m {
            f(ps.last())
        } else {
            m
        }
    }
}

/// The smallest value of `f` over a non-empty `ps`.
pub open spec fn seq_min(ps: Seq<Particle>, f: spec_fn(Particle) -> int) -> int
    decreases ps.len(),
{
    if ps.len() <= 1 {
        f(ps[0])
    } else {
        let m = seq_min(ps.drop_last(), f);
        if f(ps.last()) < m {
            f(ps.last())
        } else {
            m
        }
    }
}

/// The centre of mass of `ps` (coordinates rounded toward zero), carrying their total mass.
pub open spec fn com_of(ps: Seq<Particle>) -> Particle {
    let m = total(ps, mass_of());
    Particle {
        pos: PhysVec {
            x: trunc_div(total(ps, moment_x()), m) as i64,
            y: trunc_div(total(ps, moment_y()), m) as i64,
        },
        vel: PhysVec { x: 0, y: 0 },
        mass: m as u64,
    }
}

/// Statistics of `ps` in the square of centre `(cx, cy) / (2 * s)` and side `w / s`.
pub open spec fn stats_of(ps: Seq<Particle>, cx: int, cy: int, s: int, w: int) -> BoxStats {
    BoxStats {
        centre_x: cx as i128,
        centre_y: cy as i128,
        scale: s as u64,
        com: com_of(ps),
        width: w as u64,
        height: w as u64,
        num_particles: ps.len() as u64,
    }
}

/// `v` lies within the closed interval of centre `c / (2 * s)` and length `w / s`.
pub open spec fn in_span(v: int, c: int, s: int, w: int) -> bool {
    c - w <= 2 * s * v <= c + w
}

/// `p` lies in the closed square of centre `(cx, cy) / (2 * s)` and side `w / s`.
pub open spec fn in_square(p: Particle, cx: int, cy: int, s: int, w: int) -> bool {
    in_span(p.pos.x as int, cx, s, w) && in_span(p.pos.y as int, cy, s, w)
}

/// All particles of `ps` stand at one position.
pub open spec fn same_position(ps: Seq<Particle>) -> bool {
    forall|i: int| 0 <= i < ps.len() ==> (#[trigger] ps[i]).pos == ps[0].pos
}

/// The node of particles that cannot be told apart by position: the first
/// particle is a leaf and the others form the node beside it, in the same square.
pub open spec fn cluster(ps: Seq<Particle>, cx: int, cy: int, s: int, w: int) -> Node
    decreases ps.len(),
{
    if ps.len() == 0 {
        Node::Zero
    } else if ps.len() == 1 {
        Node::One(ps[0])
    } else {
        Node::Many(
            stats_of(ps, cx, cy, s, w),
            Branch {
                tl: Box::new(Node::One(ps[0])),
                tr: Box::new(cluster(ps.drop_first(), cx, cy, s, w)),
                bl: Box::new(Node::Zero),
                br: Box::new(Node::Zero),
            },
        )
    }
}

/// The node for `ps` in the square of centre `(cx, cy) / (2 * s)` and side
/// `w / s`. The particles are split at the centre, each child square being
/// centred a quarter side away from it with half the side. A particle on the
/// centre line goes to the left or bottom. Splitting stops when the particles
/// stand at one position (or, which never happens to particles within the
/// square, when the side is below one grid unit).
pub open spec fn build_node(ps: Seq<Particle>, cx: int, cy: int, s: nat, w: nat) -> Node
    decreases (if s <= w {
        w + 1 - s
    } else {
        0
    }),
{
    if ps.len() == 0 {
        Node::Zero
    } else if ps.len() == 1 {
        Node::One(ps[0])
    } else if same_position(ps) || w < s || s == 0 {
        cluster(ps, cx, cy, s as int, w as int)
    } else {
        let (xs, ys) = (cx / (2 * s as int), cy / (2 * s as int));
        Node::Many(
            stats_of(ps, cx, cy, s as int, w as int),
            Branch {
                tl: Box::new(build_node(in_quadrant(ps, xs, ys, 0), 2 * cx - w, 2 * cy + w, 2 * s, w)),
                tr: Box::new(build_node(in_quadrant(ps, xs, ys, 1), 2 * cx + w, 2 * cy + w, 2 * s, w)),
                bl: Box::new(build_node(in_quadrant(ps, xs, ys, 2), 2 * cx - w, 2 * cy - w, 2 * s, w)),
                br: Box::new(build_node(in_quadrant(ps, xs, ys, 3), 2 * cx + w, 2 * cy - w, 2 * s, w)),
            },
        )
    }
}

/// The larger side of the bounding box of a non-empty `ps`.
pub open spec fn root_width(ps: Seq<Particle>) -> int {
    let xw = seq_max(ps, x_of()) - seq_min(ps, x_of());
    let yw = seq_max(ps, y_of()) - seq_min(ps, y_of());
    if xw > yw {
        xw
    } else {
        yw
    }
}

/// The tree of a non-empty snapshot: its square is centred on the middle of
/// the bounding box and its side is the larger side of the box.
pub open spec fn tree_of(ps: Seq<Particle>) -> Node {
    build_node(
        ps,
        seq_min(ps, x_of()) + seq_max(ps, x_of()),
        seq_min(ps, y_of()) + seq_max(ps, y_of()),
        1,
        root_width(ps) as nat,
    )
}

/// A square whose children's geometry stays within the integer types.
pub open spec fn geometry_ok(cx: int, cy: int, s: int, w: int) -> bool {
    &&& 1 <= s <= SCALE_LIMIT
    &&& 0 <= w <= WIDTH_LIMIT
    &&& w == 0 || s <= 2 * w
    &&& -2 * s * SPAN_LIMIT <= cx - 2 * w
    &&& cx + 2 * w <= 2 * s * SPAN_LIMIT
    &&& -2 * s * SPAN_LIMIT <= cy - 2 * w
    &&& cy + 2 * w <= 2 * s * SPAN_LIMIT
}

/// The aggregate mass a node stands for.
pub open spec fn node_mass(n: Node) -> int {
    match n {
        Node::Zero => 0,
        Node::One(p) => p.mass as int,
        Node::Many(s, _) => s.com.mass as int,
    }
}

/// The number of particles a node stands for.
pub open spec fn node_count(n: Node) -> int {
    match n {
        Node::Zero => 0,
        Node::One(_) => 1,
        Node::Many(s, _) => s.num_particles as int,
    }
}

/// An internal node has the square of centre `(cx, cy) / (2 * s)` and side `w / s`.
pub open spec fn has_square(n: Node, cx: int, cy: int, s: int, w: int) -> bool {
    n matches Node::Many(b, _) ==> b.centre_x == cx && b.centre_y == cy && b.scale == s
        && b.width == w && b.height == w
}

/// Every particle of `ls` lies in quadrant `q` around `(cx, cy)`.
pub open spec fn all_in_quadrant(ls: Seq<Particle>, cx: int, cy: int, q: int) -> bool {
    forall|i: int| 0 <= i < ls.len() ==> quadrant(#[trigger] ls[i], cx, cy) == q
}

impl Node {
    /// The particles of the leaves below this node, left to right.
    pub open spec fn leaves(self) -> Seq<Particle>
        decreases self,
    {
        match self {
            Node::Zero => seq![],
            Node::One(p) => seq![p],
            Node::Many(_, b) => b.tl.leaves() + b.tr.leaves() + b.bl.leaves() + b.br.leaves(),
        }
    }

    /// Every internal node holds at least two particles; records their
    /// number, total mass and centre of mass, the number and mass being the
    /// sums of its children's; holds every leaf below it within its square.
    /// Where its particles are not all at one position, each child holds only
    /// particles of its own quadrant and an internal child's square is centred
    /// a quarter side away with half the side; otherwise an internal child
    /// keeps the same square. Every leaf particle is well formed.
    pub open spec fn wf(self) -> bool
        decreases self,
    {
        match self {
            Node::Zero => true,
            Node::One(p) => p.wf(),
            Node::Many(s, b) => {
                let ls = self.leaves();
                let (cx, cy, sc, w) = (
                    s.centre_x as int,
                    s.centre_y as int,
                    s.scale as int,
                    s.width as int,
                );
                &&& ls.len() >= 2
                &&& s.num_particles == ls.len()
                &&& s.com.mass == total(ls, mass_of())
                &&& s.com.pos.x == trunc_div(total(ls, moment_x()), total(ls, mass_of()))
                &&& s.com.pos.y == trunc_div(total(ls, moment_y()), total(ls, mass_of()))
                &&& s.com.vel == PhysVec { x: 0, y: 0 }
                &&& vec_in_range(s.com.pos)
                &&& s.width == s.height
                &&& geometry_ok(cx, cy, sc, w)
                &&& s.com.mass == node_mass(*b.tl) + node_mass(*b.tr) + node_mass(*b.bl)
                    + node_mass(*b.br)
                &&& s.num_particles == node_count(*b.tl) + node_count(*b.tr) + node_count(*b.bl)
                    + node_count(*b.br)
                &&& forall|i: int| 0 <= i < ls.len() ==> in_square(#[trigger] ls[i], cx, cy, sc, w)
                &&& if same_position(ls) {
                    &&& has_square(*b.tl, cx, cy, sc, w)
                    &&& has_square(*b.tr, cx, cy, sc, w)
                    &&& has_square(*b.bl, cx, cy, sc, w)
                    &&& has_square(*b.br, cx, cy, sc, w)
                } else {
                    let (xs, ys) = (cx / (2 * sc), cy / (2 * sc));
                    &&& all_in_quadrant(b.tl.leaves(), xs, ys, 0)
                    &&& all_in_quadrant(b.tr.leaves(), xs, ys, 1)
                    &&& all_in_quadrant(b.bl.leaves(), xs, ys, 2)
                    &&& all_in_quadrant(b.br.leaves(), xs, ys, 3)
                    &&& has_square(*b.tl, 2 * cx - w, 2 * cy + w, 2 * sc, w)
                    &&& has_square(*b.tr, 2 * cx + w, 2 * cy + w, 2 * sc, w)
                    &&& has_square(*b.bl, 2 * cx - w, 2 * cy - w, 2 * sc, w)
                    &&& has_square(*b.br, 2 * cx + w, 2 * cy - w, 2 * sc, w)
                }
                &&& b.tl.wf()
                &&& b.tr.wf()
                &&& b.bl.wf()
                &&& b.br.wf()
            },
        }
    }
}

impl QuadTree {
    pub open spec fn wf(self) -> bool {
        self.root.wf() && self.root.leaves().len() <= MAX_PARTICLES
    }
}

/// `seq_max` and `seq_min` are attained and bound every value.
pub proof fn lemma_extrema(ps: Seq<Particle>, f: spec_fn(Particle) -> int)
    requires
        ps.len() >= 1,
    ensures
        forall|i: int| 0 <= i < ps.len() ==> seq_min(ps, f) <= #[trigger] f(ps[i]) <= seq_max(ps, f),
        exists|i: int| 0 <= i < ps.len() && f(ps[i]) == seq_max(ps, f),
        exists|i: int| 0 <= i < ps.len() && f(ps[i]) == seq_min(ps, f),
    decreases ps.len(),
{
    if ps.len() == 1 {
        assert(f(ps[0]) == seq_max(ps, f));
        assert(f(ps[0]) == seq_min(ps, f));
    } else {
        let init = ps.drop_last();
        lemma_extrema(init, f);
        assert forall|i: int| 0 <= i < ps.len() implies seq_min(ps, f) <= #[trigger] f(ps[i])
            <= seq_max(ps, f) by {
            if i < ps.len() - 1 {
                assert(f(init[i]) == f(ps[i]));
            }
        }
        let j = choose|j: int| 0 <= j < init.len() && f(init[j]) == seq_max(init, f);
        let k = choose|k: int| 0 <= k < init.len() && f(init[k]) == seq_min(init, f);
        if f(ps.last()) > seq_max(init, f) {
            assert(f(ps[ps.len() - 1]) == seq_max(ps, f));
        } else {
            assert(f(ps[j]) == seq_max(ps, f));
        }
        if f(ps.last()) < seq_min(init, f) {
            assert(f(ps[ps.len() - 1]) == seq_min(ps, f));
        } else {
            assert(f(ps[k]) == seq_min(ps, f));
        }
    }
}

/// The per-axis extrema `(xmax, xmin, ymax, ymin)` of the positions, or `None`
/// for an empty collection.
pub fn find_bounding_box(particles: &Vec<Particle>) -> (r: Option<(i64, i64, i64, i64)>)
    ensures
        particles@.len() == 0 <==> r is None,
        r matches Some((xmax, xmin, ymax, ymin)) ==> {
            &&& xmax == seq_max(particles@, x_of())
            &&& xmin == seq_min(particles@, x_of())
            &&& ymax == seq_max(particles@, y_of())
            &&& ymin == seq_min(particles@, y_of())
            &&& forall|i: int|
                0 <= i < particles@.len() ==> xmin <= (#[trigger] particles@[i]).pos.x <= xmax
                    && ymin <= particles@[i].pos.y <= ymax
            &&& exists|i: int| 0 <= i < particles@.len() && particles@[i].pos.x == xmax
            &&& exists|i: int| 0 <= i < particles@.len() && particles@[i].pos.x == xmin
            &&& exists|i: int| 0 <= i < particles@.len() && particles@[i].pos.y == ymax
            &&& exists|i: int| 0 <= i < particles@.len() && particles@[i].pos.y == ymin
        },
{
    let n = particles.len();
    if n == 0 {
        return None;
    }
    let ghost ps = particles@;
    let mut xmax = particles[0].pos.x;
    let mut xmin = particles[0].pos.x;
    let mut ymax = particles[0].pos.y;
    let mut ymin = particles[0].pos.y;
    let mut i: usize = 1;
    while i < n
        invariant
            1 <= i <= n,
            n == ps.len(),
            ps == particles@,
            xmax == seq_max(ps.subrange(0, i as int), x_of()),
            xmin == seq_min(ps.subrange(0, i as int), x_of()),
            ymax == seq_max(ps.subrange(0, i as int), y_of()),
            ymin == seq_min(ps.subrange(0, i as int), y_of()),
        decreases n - i,
    {
        let p = particles[i];
        if p.pos.x > xmax {
            xmax = p.pos.x;
        }
        if p.pos.x < xmin {
            xmin = p.pos.x;
        }
        if p.pos.y > ymax {
            ymax = p.pos.y;
        }
        if p.pos.y < ymin {
            ymin = p.pos.y;
        }
        assert(ps.subrange(0, i + 1).drop_last() =~= ps.subrange(0, i as int));
        i += 1;
    }
    assert(ps.subrange(0, n as int) =~= ps);
    proof {
        lemma_extrema(ps, x_of());
        lemma_extrema(ps, y_of());
        let a = choose|a: int| 0 <= a < ps.len() && x_of()(ps[a]) == seq_max(ps, x_of());
        let b = choose|b: int| 0 <= b < ps.len() && x_of()(ps[b]) == seq_min(ps, x_of());
        let c = choose|c: int| 0 <= c < ps.len() && y_of()(ps[c]) == seq_max(ps, y_of());
        let d = choose|d: int| 0 <= d < ps.len() && y_of()(ps[d]) == seq_min(ps, y_of());
        assert(ps[a].pos.x == xmax && ps[b].pos.x == xmin && ps[c].pos.y == ymax && ps[d].pos.y
            == ymin);
        assert forall|i: int| 0 <= i < ps.len() implies xmin <= (#[trigger] ps[i]).pos.x <= xmax
            && ymin <= ps[i].pos.y <= ymax by {
            assert(x_of()(ps[i]) == ps[i].pos.x);
            assert(y_of()(ps[i]) == ps[i].pos.y);
        }
    }
    Some((xmax, xmin, ymax, ymin))
}

/// Splits `particles` into the four quadrants around `(xsplit, ysplit)`:
/// `(top-left, top-right, bottom-left, bottom-right)`, each in input order.
/// A particle is right of the centre when its `x > xsplit` and above it when
/// its `y > ysplit`; ties fall to the left or bottom.
pub fn partition(particles: &Vec<Particle>, xsplit: i64, ysplit: i64) -> (r: (
    Vec<Particle>,
    Vec<Particle>,
    Vec<Particle>,
    Vec<Particle>,
))
    ensures
        r.0@ == in_quadrant(particles@, xsplit as int, ysplit as int, 0),
        r.1@ == in_quadrant(particles@, xsplit as int, ysplit as int, 1),
        r.2@ == in_quadrant(particles@, xsplit as int, ysplit as int, 2),
        r.3@ == in_quadrant(particles@, xsplit as int, ysplit as int, 3),
{
    let ghost ps = particles@;
    let ghost cx = xsplit as int;
    let ghost cy = ysplit as int;
    let mut tl: Vec<Particle> = Vec::new();
    let mut tr: Vec<Particle> = Vec::new();
    let mut bl: Vec<Particle> = Vec::new();
    let mut br: Vec<Particle> = Vec::new();
    let n = particles.len();
    let mut i: usize = 0;
    while i < n
        invariant
            i <= n,
            n == ps.len(),
            ps == particles@,
            cx == xsplit,
            cy == ysplit,
            tl@ == in_quadrant(ps.subrange(0, i as int), cx, cy, 0),
            tr@ == in_quadrant(ps.subrange(0, i as int), cx, cy, 1),
            bl@ == in_quadrant(ps.subrange(0, i as int), cx, cy, 2),
            br@ == in_quadrant(ps.subrange(0, i as int), cx, cy, 3),
        decreases n - i,
    {
        let p = particles[i];
        assert(ps.subrange(0, i + 1).drop_last() =~= ps.subrange(0, i as int));
        assert(ps.subrange(0, i + 1).last() == p);
        if p.pos.x > xsplit {
            if p.pos.y > ysplit {
                tr.push(p);
            } else {
                br.push(p);
            }
        } else {
            if p.pos.y > ysplit {
                tl.push(p);
            } else {
                bl.push(p);
            }
        }
        i += 1;
    }
    assert(ps.subrange(0, n as int) =~= ps);
    (tl, tr, bl, br)
}

/// Statistics of `particles` in the square of centre `(x, y) / (2 * s)` and side `w / s`.
fn calc_stats(particles: &Vec<Particle>, x: i128, y: i128, s: u64, w: u64) -> (r: BoxStats)
    requires
        snapshot_wf(particles@),
        particles@.len() >= 1,
        geometry_ok(x as int, y as int, s as int, w as int),
    ensures
        r == stats_of(particles@, x as int, y as int, s as int, w as int),
        r.com.mass == total(particles@, mass_of()),
        r.com.pos.x == trunc_div(total(particles@, moment_x()), total(particles@, mass_of())),
        r.com.pos.y == trunc_div(total(particles@, moment_y()), total(particles@, mass_of())),
        vec_in_range(r.com.pos),
{
    let ghost ps = particles@;
    let n = particles.len();
    let mut mass: i128 = 0;
    let mut xmass_sum: i128 = 0;
    let mut ymass_sum: i128 = 0;
    let mut i: usize = 0;
    while i < n
        invariant
            i <= n,
            n == ps.len(),
            ps == particles@,
            snapshot_wf(ps),
            mass == total(ps.subrange(0, i as int), mass_of()),
            xmass_sum == total(ps.subrange(0, i as int), moment_x()),
            ymass_sum == total(ps.subrange(0, i as int), moment_y()),
            0 <= mass <= i * MASS_LIMIT,
            -(COORD_LIMIT * mass) <= xmass_sum <= COORD_LIMIT * mass,
            -(COORD_LIMIT * mass) <= ymass_sum <= COORD_LIMIT * mass,
        decreases n - i,
    {
        let p = particles[i];
        proof {
            lemma_total_prefix(ps, i as int, mass_of());
            lemma_total_prefix(ps, i as int, moment_x());
            lemma_total_prefix(ps, i as int, moment_y());
            assert(ps[i as int].wf());
            lemma_mass_bounds(ps.subrange(0, i + 1));
            lemma_moment_bounds(ps.subrange(0, i + 1));
            assert(COORD_LIMIT * (i * MASS_LIMIT) <= 0x4_0000_0000_0000_0000_0000int) by (
            nonlinear_arith)
                requires
                    i <= MAX_PARTICLES,
            ;
            assert(COORD_LIMIT * mass <= COORD_LIMIT * (i * MASS_LIMIT)) by (nonlinear_arith)
                requires
                    mass <= i * MASS_LIMIT,
            ;
            assert(-0x1_0000_0000_0000_0000int <= p.mass * p.pos.x <= 0x1_0000_0000_0000_0000int
                && -0x1_0000_0000_0000_0000int <= p.mass * p.pos.y <= 0x1_0000_0000_0000_0000int)
                by (nonlinear_arith)
                requires
                    p.wf(),
            ;
        }
        let m = p.mass as i128;
        xmass_sum = xmass_sum + m * (p.pos.x as i128);
        ymass_sum = ymass_sum + m * (p.pos.y as i128);
        mass = mass + m;
        i += 1;
    }
    assert(ps.subrange(0, n as int) =~= ps);
    proof {
        lemma_mass_bounds(ps);
        lemma_moment_bounds(ps);
        lemma_trunc_div_bound(xmass_sum as int, mass as int, COORD_LIMIT as int);
        lemma_trunc_div_bound(ymass_sum as int, mass as int, COORD_LIMIT as int);
    }
    let cx = trunc_div_exec(xmass_sum, mass) as i64;
    let cy = trunc_div_exec(ymass_sum, mass) as i64;
    BoxStats {
        centre_x: x,
        centre_y: y,
        scale: s,
        com: Particle { pos: PhysVec { x: cx, y: cy }, vel: PhysVec { x: 0, y: 0 }, mass: mass as u64 },
        width: w,
        height: w,
        num_particles: n as u64,
    }
}

/// The casts in `stats_of` lose nothing on a well-formed snapshot.
proof fn lemma_stats_exact(ps: Seq<Particle>, cx: int, cy: int, s: int, w: int)
    requires
        snapshot_wf(ps),
        ps.len() >= 1,
        geometry_ok(cx, cy, s, w),
    ensures
        stats_of(ps, cx, cy, s, w).num_particles == ps.len(),
        stats_of(ps, cx, cy, s, w).com.mass == total(ps, mass_of()),
        stats_of(ps, cx, cy, s, w).com.pos.x == trunc_div(total(ps, moment_x()), total(ps, mass_of())),
        stats_of(ps, cx, cy, s, w).com.pos.y == trunc_div(total(ps, moment_y()), total(ps, mass_of())),
        vec_in_range(stats_of(ps, cx, cy, s, w).com.pos),
        stats_of(ps, cx, cy, s, w).width == w,
        stats_of(ps, cx, cy, s, w).height == w,
        stats_of(ps, cx, cy, s, w).scale == s,
        stats_of(ps, cx, cy, s, w).centre_x == cx,
        stats_of(ps, cx, cy, s, w).centre_y == cy,
        total(ps, mass_of()) <= TOTAL_MASS_LIMIT,
{
    lemma_mass_bounds(ps);
    lemma_moment_bounds(ps);
    assert(ps.len() * MASS_LIMIT <= TOTAL_MASS_LIMIT) by (nonlinear_arith)
        requires
            ps.len() <= MAX_PARTICLES,
    ;
    assert(-0x4_0000_0000_0000_0000int <= cx <= 0x4_0000_0000_0000_0000int
        && -0x4_0000_0000_0000_0000int <= cy <= 0x4_0000_0000_0000_0000int) by (nonlinear_arith)
        requires
            geometry_ok(cx, cy, s, w),
    ;
    lemma_trunc_div_bound(total(ps, moment_x()), total(ps, mass_of()), COORD_LIMIT as int);
    lemma_trunc_div_bound(total(ps, moment_y()), total(ps, mass_of()), COORD_LIMIT as int);
}

/// Every particle of `a` is one of `b`.
pub open spec fn drawn_from(a: Seq<Particle>, b: Seq<Particle>) -> bool {
    forall|i: int| 0 <= i < a.len() ==> b.contains(#[trigger] a[i])
}

/// The leaves of a cluster are its particles.
pub proof fn lemma_cluster_leaves(ps: Seq<Particle>, cx: int, cy: int, s: int, w: int)
    ensures
        cluster(ps, cx, cy, s, w).leaves() =~= ps,
    decreases ps.len(),
{
    if ps.len() >= 2 {
        let rest = ps.drop_first();
        lemma_cluster_leaves(rest, cx, cy, s, w);
        let e: Seq<Particle> = seq![];
        assert(Node::One(ps[0]).leaves() == seq![ps[0]]);
        assert(Node::Zero.leaves() == e);
        assert(cluster(ps, cx, cy, s, w).leaves() == seq![ps[0]] + cluster(rest, cx, cy, s, w).leaves() + e
            + e);
        assert(ps =~= seq![ps[0]] + rest + e + e);
    } else if ps.len() == 1 {
        assert(cluster(ps, cx, cy, s, w).leaves() =~= seq![ps[0]]);
    }
}

/// The mass and count a well-formed node stands for are those of its leaves.
pub proof fn lemma_node_sums(n: Node)
    requires
        n.wf(),
    ensures
        node_mass(n) == total(n.leaves(), mass_of()),
        node_count(n) == n.leaves().len(),
{
    match n {
        Node::Zero => {
            assert(n.leaves() =~= Seq::<Particle>::empty());
        },
        Node::One(q) => {
            assert(n.leaves() =~= seq![q]);
            assert(n.leaves().drop_last() =~= Seq::<Particle>::empty());
            assert(total(Seq::<Particle>::empty(), mass_of()) == 0);
        },
        Node::Many(_, _) => {},
    }
}

proof fn lemma_cluster_wf(ps: Seq<Particle>, cx: int, cy: int, s: int, w: int)
    requires
        snapshot_wf(ps),
        geometry_ok(cx, cy, s, w),
        same_position(ps),
        forall|i: int| 0 <= i < ps.len() ==> in_square(#[trigger] ps[i], cx, cy, s, w),
    ensures
        cluster(ps, cx, cy, s, w).wf(),
    decreases ps.len(),
{
    if ps.len() == 1 {
        assert(ps[0].wf());
    } else if ps.len() >= 2 {
        let rest = ps.drop_first();
        assert(snapshot_wf(rest) && same_position(rest) && forall|i: int|
            0 <= i < rest.len() ==> in_square(#[trigger] rest[i], cx, cy, s, w)) by {
            assert forall|i: int| 0 <= i < rest.len() implies (#[trigger] rest[i]).wf()
                && in_square(rest[i], cx, cy, s, w) && rest[i].pos == rest[0].pos by {
                assert(rest[i] == ps[i + 1]);
                assert(rest[0] == ps[1]);
            }
        }
        assert(ps[0].wf());
        assert(Node::One(ps[0]).wf());
        assert(Node::Zero.wf());
        lemma_cluster_wf(rest, cx, cy, s, w);
        lemma_cluster_leaves(ps, cx, cy, s, w);
        lemma_cluster_leaves(rest, cx, cy, s, w);
        lemma_node_sums(cluster(rest, cx, cy, s, w));
        lemma_node_sums(Node::One(ps[0]));
        lemma_node_sums(Node::Zero);
        lemma_total_concat(seq![ps[0]], rest, mass_of());
        assert(ps =~= seq![ps[0]] + rest);
        lemma_stats_exact(ps, cx, cy, s, w);
        if rest.len() >= 2 {
            lemma_stats_exact(rest, cx, cy, s, w);
        }
    }
}

/// The leaves of a built node carry the same count and sums as its input,
/// and each of them is one of its input particles.
pub proof fn lemma_build_total(
    ps: Seq<Particle>,
    cx: int,
    cy: int,
    s: nat,
    w: nat,
    f: spec_fn(Particle) -> int,
)
    ensures
        build_node(ps, cx, cy, s, w).leaves().len() == ps.len(),
        total(build_node(ps, cx, cy, s, w).leaves(), f) == total(ps, f),
        drawn_from(build_node(ps, cx, cy, s, w).leaves(), ps),
    decreases (if s <= w {
        w + 1 - s
    } else {
        0
    }),
{
    if ps.len() == 0 {
        assert(build_node(ps, cx, cy, s, w).leaves() =~= ps);
    } else if ps.len() == 1 {
        assert(build_node(ps, cx, cy, s, w).leaves() =~= ps);
    } else if same_position(ps) || w < s || s == 0 {
        lemma_cluster_leaves(ps, cx, cy, s as int, w as int);
    } else {
        let (xs, ys) = (cx / (2 * s as int), cy / (2 * s as int));
        let q0 = in_quadrant(ps, xs, ys, 0);
        let q1 = in_quadrant(ps, xs, ys, 1);
        let q2 = in_quadrant(ps, xs, ys, 2);
        let q3 = in_quadrant(ps, xs, ys, 3);
        let l0 = build_node(q0, 2 * cx - w, 2 * cy + w, 2 * s, w).leaves();
        let l1 = build_node(q1, 2 * cx + w, 2 * cy + w, 2 * s, w).leaves();
        let l2 = build_node(q2, 2 * cx - w, 2 * cy - w, 2 * s, w).leaves();
        let l3 = build_node(q3, 2 * cx + w, 2 * cy - w, 2 * s, w).leaves();
        lemma_build_total(q0, 2 * cx - w, 2 * cy + w, 2 * s, w, f);
        lemma_build_total(q1, 2 * cx + w, 2 * cy + w, 2 * s, w, f);
        lemma_build_total(q2, 2 * cx - w, 2 * cy - w, 2 * s, w, f);
        lemma_build_total(q3, 2 * cx + w, 2 * cy - w, 2 * s, w, f);
        lemma_in_quadrant_subset(ps, xs, ys, 0);
        lemma_in_quadrant_subset(ps, xs, ys, 1);
        lemma_in_quadrant_subset(ps, xs, ys, 2);
        lemma_in_quadrant_subset(ps, xs, ys, 3);
        lemma_total_concat(l0, l1, f);
        lemma_total_concat(l0 + l1, l2, f);
        lemma_total_concat(l0 + l1 + l2, l3, f);
        lemma_partition_total(ps, xs, ys, f);
        let ls = build_node(ps, cx, cy, s, w).leaves();
        assert(ls == l0 + l1 + l2 + l3);
        assert forall|i: int| 0 <= i < ls.len() implies ps.contains(#[trigger] ls[i]) by {
            if i < l0.len() {
                assert(ls[i] == l0[i]);
                assert(q0.contains(l0[i]));
            } else if i < l0.len() + l1.len() {
                assert(ls[i] == l1[i - l0.len()]);
                assert(q1.contains(l1[i - l0.len()]));
            } else if i < l0.len() + l1.len() + l2.len() {
                assert(ls[i] == l2[i - l0.len() - l1.len()]);
                assert(q2.contains(l2[i - l0.len() - l1.len()]));
            } else {
                assert(ls[i] == l3[i - l0.len() - l1.len() - l2.len()]);
                assert(q3.contains(l3[i - l0.len() - l1.len() - l2.len()]));
            }
        }
    }
}

/// Particles within a square narrower than one grid unit stand at one position.
pub proof fn lemma_narrow_square_is_a_point(ps: Seq<Particle>, cx: int, cy: int, s: int, w: int)
    requires
        1 <= s,
        0 <= w < s,
        forall|i: int| 0 <= i < ps.len() ==> in_square(#[trigger] ps[i], cx, cy, s, w),
    ensures
        same_position(ps),
{
    assert forall|i: int| 0 <= i < ps.len() implies (#[trigger] ps[i]).pos == ps[0].pos by {
        assert(in_square(ps[0], cx, cy, s, w));
        let (a, b) = (ps[i].pos.x as int, ps[0].pos.x as int);
        let (c, d) = (ps[i].pos.y as int, ps[0].pos.y as int);
        assert(a == b) by (nonlinear_arith)
            requires
                cx - w <= 2 * s * a <= cx + w,
                cx - w <= 2 * s * b <= cx + w,
                1 <= s,
                w < s,
        ;
        assert(c == d) by (nonlinear_arith)
            requires
                cy - w <= 2 * s * c <= cy + w,
                cy - w <= 2 * s * d <= cy + w,
                1 <= s,
                w < s,
        ;
    }
}

/// An integer lies above `c / d` (rounded down) exactly when `d` times it lies above `c`.
pub proof fn lemma_above_floor(x: int, c: int, d: int)
    requires
        d > 0,
    ensures
        (x > c / d) <==> (d * x > c),
{
    lemma_fundamental_div_mod(c, d);
    lemma_mod_bound(c, d);
    let (q, r) = (c / d, c % d);
    assert((x > q) <==> (d * x > c)) by (nonlinear_arith)
        requires
            c == d * q + r,
            0 <= r < d,
    ;
}

/// A particle of a quadrant of a square lies in that quadrant's child square.
proof fn lemma_child_square(p: Particle, cx: int, cy: int, s: int, w: int, q: int)
    requires
        s >= 1,
        in_square(p, cx, cy, s, w),
        quadrant(p, cx / (2 * s), cy / (2 * s)) == q,
    ensures
        ({
            let (x, y) = if q == 0 {
                (2 * cx - w, 2 * cy + w)
            } else if q == 1 {
                (2 * cx + w, 2 * cy + w)
            } else if q == 2 {
                (2 * cx - w, 2 * cy - w)
            } else {
                (2 * cx + w, 2 * cy - w)
            };
            in_square(p, x, y, 2 * s, w)
        }),
{
    lemma_above_floor(p.pos.x as int, cx, 2 * s);
    lemma_above_floor(p.pos.y as int, cy, 2 * s);
    let (a, b) = (p.pos.x as int, p.pos.y as int);
    assert(2 * (2 * s) * a == 2 * (2 * s * a)) by (nonlinear_arith);
    assert(2 * (2 * s) * b == 2 * (2 * s * b)) by (nonlinear_arith);
}

/// The indicator of particles away from position `v`.
pub open spec fn away_from(v: PhysVec) -> spec_fn(Particle) -> int {
    |q: Particle| if q.pos == v { 0int } else { 1int }
}

proof fn lemma_away_zero(ps: Seq<Particle>, v: PhysVec)
    ensures
        total(ps, away_from(v)) >= 0,
        total(ps, away_from(v)) == 0 <==> forall|i: int| 0 <= i < ps.len() ==> (#[trigger] ps[i]).pos == v,
    decreases ps.len(),
{
    if ps.len() > 0 {
        lemma_away_zero(ps.drop_last(), v);
        if total(ps, away_from(v)) == 0 {
            assert forall|i: int| 0 <= i < ps.len() implies (#[trigger] ps[i]).pos == v by {
                if i < ps.len() - 1 {
                    assert(ps.drop_last()[i] == ps[i]);
                }
            }
        }
        if forall|i: int| 0 <= i < ps.len() ==> (#[trigger] ps[i]).pos == v {
            assert forall|i: int| 0 <= i < ps.drop_last().len() implies (
            #[trigger] ps.drop_last()[i]).pos == v by {
                assert(ps[i].pos == v);
            }
            assert(ps[ps.len() - 1].pos == v);
        }
    }
}

/// A built node's leaves stand at one position exactly when its input does.
proof fn lemma_build_same_position(ps: Seq<Particle>, cx: int, cy: int, s: nat, w: nat)
    requires
        ps.len() >= 1,
    ensures
        same_position(build_node(ps, cx, cy, s, w).leaves()) <==> same_position(ps),
{
    let ls = build_node(ps, cx, cy, s, w).leaves();
    lemma_build_total(ps, cx, cy, s, w, away_from(ps[0].pos));
    lemma_build_total(ps, cx, cy, s, w, away_from(ls[0].pos));
    lemma_away_zero(ps, ps[0].pos);
    lemma_away_zero(ls, ps[0].pos);
    lemma_away_zero(ps, ls[0].pos);
    lemma_away_zero(ls, ls[0].pos);
    if same_position(ps) {
        assert forall|i: int| 0 <= i < ps.len() implies (#[trigger] ps[i]).pos == ps[0].pos by {}
    }
    if same_position(ls) {
        assert forall|i: int| 0 <= i < ls.len() implies (#[trigger] ls[i]).pos == ls[0].pos by {}
        assert forall|i: int| 0 <= i < ps.len() implies (#[trigger] ps[i]).pos == ps[0].pos by {
            assert(ps[0].pos == ls[0].pos);
        }
    }
}

/// A built node is well formed.
pub proof fn lemma_build_wf(ps: Seq<Particle>, cx: int, cy: int, s: nat, w: nat)
    requires
        snapshot_wf(ps),
        geometry_ok(cx, cy, s as int, w as int),
        forall|i: int| 0 <= i < ps.len() ==> in_square(#[trigger] ps[i], cx, cy, s as int, w as int),
    ensures
        build_node(ps, cx, cy, s, w).wf(),
    decreases (if s <= w {
        w + 1 - s
    } else {
        0
    }),
{
    if ps.len() == 1 {
        assert(ps[0].wf());
    } else if ps.len() >= 2 && (same_position(ps) || w < s || s == 0) {
        if w < s {
            lemma_narrow_square_is_a_point(ps, cx, cy, s as int, w as int);
        }
        lemma_cluster_wf(ps, cx, cy, s as int, w as int);
    } else if ps.len() >= 2 {
        let (xs, ys) = (cx / (2 * s as int), cy / (2 * s as int));
        let s2 = 2 * s;
        let corners = seq![
            (2 * cx - w, 2 * cy + w),
            (2 * cx + w, 2 * cy + w),
            (2 * cx - w, 2 * cy - w),
            (2 * cx + w, 2 * cy - w),
        ];
        assert forall|q: int| 0 <= q < 4 implies {
            let n = #[trigger] build_node(in_quadrant(ps, xs, ys, q), corners[q].0, corners[q].1, s2, w);
            &&& n.wf()
            &&& node_mass(n) == total(in_quadrant(ps, xs, ys, q), mass_of())
            &&& node_count(n) == in_quadrant(ps, xs, ys, q).len()
            &&& all_in_quadrant(n.leaves(), xs, ys, q)
            &&& has_square(n, corners[q].0, corners[q].1, s2 as int, w as int)
        } by {
            let qs = in_quadrant(ps, xs, ys, q);
            let n = build_node(qs, corners[q].0, corners[q].1, s2, w);
            lemma_in_quadrant_subset(ps, xs, ys, q);
            lemma_subset_wf(ps, qs);
            assert forall|i: int| 0 <= i < qs.len() implies in_square(
                #[trigger] qs[i],
                corners[q].0,
                corners[q].1,
                s2 as int,
                w as int,
            ) by {
                let j = choose|j: int| 0 <= j < ps.len() && ps[j] == qs[i];
                assert(in_square(ps[j], cx, cy, s as int, w as int));
                lemma_child_square(qs[i], cx, cy, s as int, w as int, q);
            }
            assert(geometry_ok(corners[q].0, corners[q].1, s2 as int, w as int));
            lemma_build_wf(qs, corners[q].0, corners[q].1, s2, w);
            lemma_node_sums(n);
            lemma_build_total(qs, corners[q].0, corners[q].1, s2, w, mass_of());
            assert forall|i: int| 0 <= i < n.leaves().len() implies quadrant(
                #[trigger] n.leaves()[i],
                xs,
                ys,
            ) == q by {
                let j = choose|j: int| 0 <= j < qs.len() && qs[j] == n.leaves()[i];
                assert(quadrant(qs[j], xs, ys) == q);
            }
            if qs.len() >= 2 {
                lemma_stats_exact(qs, corners[q].0, corners[q].1, s2 as int, w as int);
            }
        }
        let n0 = build_node(in_quadrant(ps, xs, ys, 0), corners[0].0, corners[0].1, s2, w);
        let n1 = build_node(in_quadrant(ps, xs, ys, 1), corners[1].0, corners[1].1, s2, w);
        let n2 = build_node(in_quadrant(ps, xs, ys, 2), corners[2].0, corners[2].1, s2, w);
        let n3 = build_node(in_quadrant(ps, xs, ys, 3), corners[3].0, corners[3].1, s2, w);
        assert(n0.wf() && n1.wf() && n2.wf() && n3.wf());
        lemma_build_total(ps, cx, cy, s, w, mass_of());
        lemma_build_total(ps, cx, cy, s, w, moment_x());
        lemma_build_total(ps, cx, cy, s, w, moment_y());
        lemma_build_same_position(ps, cx, cy, s, w);
        lemma_partition_total(ps, xs, ys, mass_of());
        lemma_stats_exact(ps, cx, cy, s as int, w as int);
        let ls = build_node(ps, cx, cy, s, w).leaves();
        assert forall|i: int| 0 <= i < ls.len() implies in_square(
            #[trigger] ls[i],
            cx,
            cy,
            s as int,
            w as int,
        ) by {
            let j = choose|j: int| 0 <= j < ps.len() && ps[j] == ls[i];
        }
    }
}

/// `c / d`, rounded down.
fn floor_div(c: i128, d: i128) -> (r: i128)
    requires
        d > 0,
        c > i128::MIN,
    ensures
        r == c / d,
{
    if c >= 0 {
        c / d
    } else {
        let q = (-c - 1) / d;
        proof {
            let (ci, di) = (c as int, d as int);
            let m = (-ci - 1) % di;
            lemma_fundamental_div_mod(-ci - 1, di);
            lemma_mod_bound(-ci - 1, di);
            lemma_fundamental_div_mod(c as int, d as int);
            lemma_mod_bound(c as int, d as int);
            let (q2, r2) = (ci / di, ci % di);
            let qi = q as int;
            assert(qi == (-ci - 1) / di);
            assert(q2 == -qi - 1) by (nonlinear_arith)
                requires
                    -ci - 1 == di * qi + m,
                    0 <= m < di,
                    ci == di * q2 + r2,
                    0 <= r2 < di,
            ;
        }
        -q - 1
    }
}

/// Whether all particles of `particles` stand at one position.
fn same_position_exec(particles: &Vec<Particle>) -> (r: bool)
    requires
        particles@.len() >= 1,
    ensures
        r == same_position(particles@),
{
    let first = particles[0].pos;
    let mut i: usize = 1;
    while i < particles.len()
        invariant
            1 <= i <= particles@.len(),
            first == particles@[0].pos,
            forall|k: int| 0 <= k < i ==> (#[trigger] particles@[k]).pos == first,
        decreases particles@.len() - i,
    {
        if particles[i].pos != first {
            return false;
        }
        i += 1;
    }
    true
}

/// The node of particles that cannot be told apart by position.
fn make_cluster(particles: Vec<Particle>, x: i128, y: i128, s: u64, w: u64) -> (r: Node)
    requires
        snapshot_wf(particles@),
        geometry_ok(x as int, y as int, s as int, w as int),
    ensures
        r == cluster(particles@, x as int, y as int, s as int, w as int),
    decreases particles@.len(),
{
    let ghost ps = particles@;
    let n = particles.len();
    if n == 0 {
        Node::Zero
    } else if n == 1 {
        Node::One(particles[0])
    } else {
        let first = particles[0];
        let stats = calc_stats(&particles, x, y, s, w);
        let mut rest = particles;
        rest.remove(0);
        proof {
            assert(rest@ =~= ps.drop_first());
            assert forall|i: int| 0 <= i < rest@.len() implies (#[trigger] rest@[i]).wf() by {
                assert(rest@[i] == ps[i + 1]);
            }
        }
        let tail = make_cluster(rest, x, y, s, w);
        Node::Many(
            stats,
            Branch {
                tl: Box::new(Node::One(first)),
                tr: Box::new(tail),
                bl: Box::new(Node::Zero),
                br: Box::new(Node::Zero),
            },
        )
    }
}

/// The four children of the node for `particles` in the square of centre
/// `(x, y) / (2 * s)` and side `w / s`.
fn make_branch(particles: Vec<Particle>, x: i128, y: i128, s: u64, w: u64) -> (r: Branch)
    requires
        snapshot_wf(particles@),
        geometry_ok(x as int, y as int, s as int, w as int),
        s <= w,
    ensures
        ({
            let ps = particles@;
            let (xs, ys) = (x as int / (2 * s as int), y as int / (2 * s as int));
            let (s2, w) = ((2 * s) as nat, w as nat);
            &&& *r.tl == build_node(in_quadrant(ps, xs, ys, 0), 2 * x - w, 2 * y + w, s2, w)
            &&& *r.tr == build_node(in_quadrant(ps, xs, ys, 1), 2 * x + w, 2 * y + w, s2, w)
            &&& *r.bl == build_node(in_quadrant(ps, xs, ys, 2), 2 * x - w, 2 * y - w, s2, w)
            &&& *r.br == build_node(in_quadrant(ps, xs, ys, 3), 2 * x + w, 2 * y - w, s2, w)
        }),
    decreases (if s <= w {
        w + 1 - s
    } else {
        0
    }), 0nat,
{
    let ghost ps = particles@;
    assert(-0x4_0000_0000_0000_0000int <= x <= 0x4_0000_0000_0000_0000int
        && -0x4_0000_0000_0000_0000int <= y <= 0x4_0000_0000_0000_0000int) by (nonlinear_arith)
        requires
            geometry_ok(x as int, y as int, s as int, w as int),
    ;
    let d = 2 * (s as i128);
    let xs = floor_div(x, d);
    let ys = floor_div(y, d);
    proof {
        lemma_div_is_ordered(x as int, 2 * s * SPAN_LIMIT, d as int);
        lemma_div_is_ordered(-2 * s * SPAN_LIMIT, x as int, d as int);
        lemma_div_is_ordered(y as int, 2 * s * SPAN_LIMIT, d as int);
        lemma_div_is_ordered(-2 * s * SPAN_LIMIT, y as int, d as int);
        assert((2 * s * SPAN_LIMIT) / (d as int) == SPAN_LIMIT) by {
            lemma_div_by_multiple(SPAN_LIMIT as int, d as int);
            assert(2 * s * SPAN_LIMIT == SPAN_LIMIT * d) by (nonlinear_arith)
                requires
                    d == 2 * s,
            ;
        }
        assert((-2 * s * SPAN_LIMIT) / (d as int) == -SPAN_LIMIT) by {
            lemma_fundamental_div_mod(-2 * s * SPAN_LIMIT, d as int);
            lemma_mod_bound(-2 * s * SPAN_LIMIT, d as int);
            let (q, r) = ((-2 * s * SPAN_LIMIT) / (d as int), (-2 * s * SPAN_LIMIT) % (d as int));
            assert(q == -SPAN_LIMIT) by (nonlinear_arith)
                requires
                    -2 * s * SPAN_LIMIT == d * q + r,
                    0 <= r < d,
                    d == 2 * s,
                    s >= 1,
            ;
        }
    }
    let (tla, tra, bla, bra) = partition(&particles, xs as i64, ys as i64);
    proof {
        lemma_in_quadrant_subset(ps, xs as int, ys as int, 0);
        lemma_in_quadrant_subset(ps, xs as int, ys as int, 1);
        lemma_in_quadrant_subset(ps, xs as int, ys as int, 2);
        lemma_in_quadrant_subset(ps, xs as int, ys as int, 3);
        lemma_subset_wf(ps, tla@);
        lemma_subset_wf(ps, tra@);
        lemma_subset_wf(ps, bla@);
        lemma_subset_wf(ps, bra@);
    }
    let wi = w as i128;
    let s2 = 2 * s;
    Branch {
        tl: Box::new(make_node(tla, 2 * x - wi, 2 * y + wi, s2, w)),
        tr: Box::new(make_node(tra, 2 * x + wi, 2 * y + wi, s2, w)),
        bl: Box::new(make_node(bla, 2 * x - wi, 2 * y - wi, s2, w)),
        br: Box::new(make_node(bra, 2 * x + wi, 2 * y - wi, s2, w)),
    }
}

/// The node for `particles` in the square of centre `(x, y) / (2 * s)` and side `w / s`.
fn make_node(particles: Vec<Particle>, x: i128, y: i128, s: u64, w: u64) -> (r: Node)
    requires
        snapshot_wf(particles@),
        geometry_ok(x as int, y as int, s as int, w as int),
    ensures
        r == build_node(particles@, x as int, y as int, s as nat, w as nat),
    decreases (if s <= w {
        w + 1 - s
    } else {
        0
    }), 1nat,
{
    let n = particles.len();
    if n > 1 {
        if w < s || same_position_exec(&particles) {
            return make_cluster(particles, x, y, s, w);
        }
        let stats = calc_stats(&particles, x, y, s, w);
        Node::Many(stats, make_branch(particles, x, y, s, w))
    } else if n == 1 {
        Node::One(particles[0])
    } else {
        Node::Zero
    }
}

impl QuadTree {
    /// Builds the tree of `particles` (see `tree_of`); an empty snapshot is refused.
    pub fn new(particles: Vec<Particle>) -> (r: Result<QuadTree, BuildError>)
        requires
            snapshot_wf(particles@),
        ensures
            particles@.len() == 0 <==> r is Err,
            r matches Err(e) ==> e == BuildError::EmptyInput,
            r matches Ok(t) ==> t.root == tree_of(particles@) && t.wf(),
    {
        let ghost ps = particles@;
        let bbox = find_bounding_box(&particles);
        match bbox {
            None => Err(BuildError::EmptyInput),
            Some((xmax, xmin, ymax, ymin)) => {
                proof {
                    lemma_root_geometry(ps);
                }
                let x = xmin as i128 + xmax as i128;
                let y = ymin as i128 + ymax as i128;
                let xw = (xmax - xmin) as u64;
                let yw = (ymax - ymin) as u64;
                let w = if xw > yw { xw } else { yw };
                proof {
                    lemma_build_wf(ps, x as int, y as int, 1, w as nat);
                    lemma_build_total(ps, x as int, y as int, 1, w as nat, mass_of());
                }
                Ok(QuadTree { root: make_node(particles, x, y, 1, w) })
            },
        }
    }
}

/// Every internal node of the tree of a snapshot records the total mass of the
/// particles below it, which is the sum of the masses its children stand for;
/// the root's aggregate mass is the snapshot's total mass.
pub proof fn lemma_mass_conserved(ps: Seq<Particle>)
    requires
        snapshot_wf(ps),
        ps.len() >= 1,
    ensures
        tree_of(ps).wf(),
        total(tree_of(ps).leaves(), mass_of()) == total(ps, mass_of()),
        node_mass(tree_of(ps)) == total(ps, mass_of()),
        tree_of(ps) matches Node::Many(s, b) ==> s.com.mass == total(ps, mass_of())
            && s.com.mass == node_mass(*b.tl) + node_mass(*b.tr) + node_mass(*b.bl) + node_mass(
            *b.br,
        ),
{
    lemma_root_geometry(ps);
    let (cx, cy) = (seq_min(ps, x_of()) + seq_max(ps, x_of()), seq_min(ps, y_of()) + seq_max(ps, y_of()));
    lemma_build_wf(ps, cx, cy, 1, root_width(ps) as nat);
    lemma_build_total(ps, cx, cy, 1, root_width(ps) as nat, mass_of());
    lemma_node_sums(tree_of(ps));
}

/// Every internal node of the tree of a snapshot records the number of
/// particles below it, which is the sum of its children's counts; the root
/// holds every particle of the snapshot.
pub proof fn lemma_count_conserved(ps: Seq<Particle>)
    requires
        snapshot_wf(ps),
        ps.len() >= 1,
    ensures
        tree_of(ps).wf(),
        tree_of(ps).leaves().len() == ps.len(),
        drawn_from(tree_of(ps).leaves(), ps),
        node_count(tree_of(ps)) == ps.len(),
        tree_of(ps) matches Node::Many(s, b) ==> s.num_particles == ps.len()
            && s.num_particles == node_count(*b.tl) + node_count(*b.tr) + node_count(*b.bl)
            + node_count(*b.br),
{
    lemma_root_geometry(ps);
    let (cx, cy) = (seq_min(ps, x_of()) + seq_max(ps, x_of()), seq_min(ps, y_of()) + seq_max(ps, y_of()));
    lemma_build_wf(ps, cx, cy, 1, root_width(ps) as nat);
    lemma_build_total(ps, cx, cy, 1, root_width(ps) as nat, mass_of());
    lemma_node_sums(tree_of(ps));
}

/// The root square of a well-formed snapshot holds every particle and keeps
/// its children within range.
pub proof fn lemma_root_geometry(ps: Seq<Particle>)
    requires
        snapshot_wf(ps),
        ps.len() >= 1,
    ensures
        0 <= root_width(ps) <= WIDTH_LIMIT,
        geometry_ok(
            seq_min(ps, x_of()) + seq_max(ps, x_of()),
            seq_min(ps, y_of()) + seq_max(ps, y_of()),
            1,
            root_width(ps),
        ),
        forall|i: int|
            0 <= i < ps.len() ==> in_square(
                #[trigger] ps[i],
                seq_min(ps, x_of()) + seq_max(ps, x_of()),
                seq_min(ps, y_of()) + seq_max(ps, y_of()),
                1,
                root_width(ps),
            ),
{
    lemma_extrema(ps, x_of());
    lemma_extrema(ps, y_of());
    let a = choose|a: int| 0 <= a < ps.len() && x_of()(ps[a]) == seq_max(ps, x_of());
    let b = choose|b: int| 0 <= b < ps.len() && x_of()(ps[b]) == seq_min(ps, x_of());
    let c = choose|c: int| 0 <= c < ps.len() && y_of()(ps[c]) == seq_max(ps, y_of());
    let d = choose|d: int| 0 <= d < ps.len() && y_of()(ps[d]) == seq_min(ps, y_of());
    assert(ps[a].wf() && ps[b].wf() && ps[c].wf() && ps[d].wf());
    assert(seq_min(ps, x_of()) <= seq_max(ps, x_of())) by {
        assert(x_of()(ps[0]) == ps[0].pos.x);
    }
    assert(seq_min(ps, y_of()) <= seq_max(ps, y_of())) by {
        assert(y_of()(ps[0]) == ps[0].pos.y);
    }
    assert forall|i: int| 0 <= i < ps.len() implies in_square(
        #[trigger] ps[i],
        seq_min(ps, x_of()) + seq_max(ps, x_of()),
        seq_min(ps, y_of()) + seq_max(ps, y_of()),
        1,
        root_width(ps),
    ) by {
        assert(x_of()(ps[i]) == ps[i].pos.x);
        assert(y_of()(ps[i]) == ps[i].pos.y);
        assert(seq_min(ps, x_of()) <= ps[i].pos.x <= seq_max(ps, x_of()));
        assert(seq_min(ps, y_of()) <= ps[i].pos.y <= seq_max(ps, y_of()));
        assert(root_width(ps) >= seq_max(ps, x_of()) - seq_min(ps, x_of()));
        assert(root_width(ps) >= seq_max(ps, y_of()) - seq_min(ps, y_of()));
        let (v, u) = (ps[i].pos.x as int, ps[i].pos.y as int);
        let (c, d, w) = (
            seq_min(ps, x_of()) + seq_max(ps, x_of()),
            seq_min(ps, y_of()) + seq_max(ps, y_of()),
            root_width(ps),
        );
        assert(2 * 1 * v == 2 * v && 2 * 1 * u == 2 * u);
        assert(c - w <= 2 * 1 * v <= c + w);
        assert(d - w <= 2 * 1 * u <= d + w);
        assert(in_span(v, c, 1, w));
        assert(in_span(u, d, 1, w));
    }
}

/// The root of the tree of a snapshot of two or more particles is centred on
/// the middle of the bounding box, and its side is the larger side of the box.
pub proof fn lemma_root_square(ps: Seq<Particle>)
    requires
        snapshot_wf(ps),
        ps.len() >= 2,
    ensures
        tree_of(ps) matches Node::Many(s, _) && s.centre_x == seq_min(ps, x_of()) + seq_max(
            ps,
            x_of(),
        ) && s.centre_y == seq_min(ps, y_of()) + seq_max(ps, y_of()) && s.scale == 1 && s.width
            == root_width(ps) && s.height == root_width(ps),
{
    lemma_root_geometry(ps);
    let (cx, cy) = (seq_min(ps, x_of()) + seq_max(ps, x_of()), seq_min(ps, y_of()) + seq_max(ps, y_of()));
    lemma_stats_exact(ps, cx, cy, 1, root_width(ps));
}

/// Two trees built from the same snapshot are identical: same square, same
/// split of the particles, same aggregate statistics at every node.
pub proof fn lemma_rebuild_identical(a: QuadTree, b: QuadTree, ps: Seq<Particle>)
    requires
        a.root == tree_of(ps),
        b.root == tree_of(ps),
    ensures
        a.root == b.root,
{
}

} // verus!
