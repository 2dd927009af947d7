use barnes_hut::barneshut::{bh_force, stepsim as bh_stepsim};
use barnes_hut::config::{Display, DisplayOpt, GalaxyShape, SimType};
use barnes_hut::dispatch::{step_from_results, CollectError, Collector, DispatchError};
use barnes_hut::physics::{
    apply_forces, exact_force, force, stepsim as exact_stepsim, stepvel, Force, Particle, PhysVec,
    Ratio, StepError, COORD_LIMIT,
};
use barnes_hut::quadtree::{find_bounding_box, partition, BuildError, Node, QuadTree};

/// Grid units per unit of length.
const GRID: f64 = 2.0;

fn grid(v: f64) -> i64 {
    (v * GRID) as i64
}

fn dummy_particles(n: i64) -> Vec<Particle> {
    let mut v: Vec<Particle> = Vec::new();
    for x in 0..n {
        v.push(Particle {
            pos: PhysVec { x: grid(x as f64), y: grid(x as f64 + 1.5) },
            vel: PhysVec { x: grid(x as f64), y: grid(x as f64) },
            mass: 1,
        })
    }
    v
}

fn particle(x: i64, y: i64, mass: u64) -> Particle {
    Particle { pos: PhysVec { x, y }, vel: PhysVec { x: 0, y: 0 }, mass }
}

fn pairwise_sum(pcls: &[Particle], p: &Particle) -> Force {
    let mut frc = Force { x: 0, y: 0 };
    for q in pcls.iter() {
        if p != q {
            frc.add(&force(p, q))
        }
    }
    frc
}

fn rel_error(approx: &Force, exact: &Force) -> f64 {
    let dx = (approx.x - exact.x) as f64;
    let dy = (approx.y - exact.y) as f64;
    let ex = exact.x as f64;
    let ey = exact.y as f64;
    ((dx * dx + dy * dy) / (ex * ex + ey * ey)).sqrt()
}

/// Checks the statistics of every internal node against its leaves and
/// returns the node's (mass, count).
fn check_node(node: &Node) -> (u64, u64) {
    match node {
        Node::Zero => (0, 0),
        Node::One(p) => (p.mass, 1),
        Node::Many(stats, branch) => {
            let parts = [
                check_node(&branch.tl),
                check_node(&branch.tr),
                check_node(&branch.bl),
                check_node(&branch.br),
            ];
            let mass: u64 = parts.iter().map(|p| p.0).sum();
            let count: u64 = parts.iter().map(|p| p.1).sum();
            assert_eq!(stats.com.mass, mass);
            assert_eq!(stats.num_particles, count);
            assert!(count >= 2);
            (mass, count)
        }
    }
}

#[test]
fn test_bounding_box() {
    let v = dummy_particles(100);
    let (xmax, xmin, ymax, ymin) = find_bounding_box(&v).unwrap();
    assert!(xmax == grid(99.0));
    assert!(ymax == grid(100.5));
    assert!(xmin == grid(0.));
    assert!(ymin == grid(1.5));
}

#[test]
fn test_tree() {
    let threshold = Ratio { num: 1, den: 1 };
    let pcls = dummy_particles(10);
    let qt = QuadTree::new(pcls.clone()).unwrap();
    for (ix, p) in pcls.iter().enumerate() {
        let bhfrc = qt.force(*p, threshold);
        let frc = pairwise_sum(&pcls, p);
        println!("ix: {} diff: {:0.2}%", ix, (frc.x - bhfrc.x) as f64 / frc.x as f64 * 100.);
    }
}

#[test]
fn test_qt() {
    let threshold = Ratio { num: 2, den: 1 };
    let mut pcls = dummy_particles(100);
    let dt = Ratio { num: 1, den: 20 };
    assert_eq!(bh_stepsim(&mut pcls, threshold, dt), Ok(()));
    assert_eq!(pcls.len(), 100);
}

#[test]
fn bounding_box_mixed_signs_and_empty() {
    let v = vec![particle(-5, 7, 1), particle(3, -2, 1), particle(0, 0, 1)];
    assert_eq!(find_bounding_box(&v), Some((3, -5, 7, -2)));
    assert_eq!(find_bounding_box(&Vec::new()), None);
}

#[test]
fn empty_snapshot_is_refused() {
    assert_eq!(QuadTree::new(Vec::new()), Err(BuildError::EmptyInput));
}

#[test]
fn partition_ties_fall_left_and_down() {
    let v = vec![
        particle(0, 0, 1),
        particle(1, 1, 1),
        particle(-1, 1, 1),
        particle(1, -1, 1),
        particle(0, 1, 1),
        particle(1, 0, 1),
    ];
    let (tl, tr, bl, br) = partition(&v, 0, 0);
    assert_eq!(tl, vec![particle(-1, 1, 1), particle(0, 1, 1)]);
    assert_eq!(tr, vec![particle(1, 1, 1)]);
    assert_eq!(bl, vec![particle(0, 0, 1)]);
    assert_eq!(br, vec![particle(1, -1, 1), particle(1, 0, 1)]);
}

#[test]
fn every_internal_node_holds_mass_and_count_of_its_leaves() {
    let mut v = dummy_particles(100);
    v[7].mass = 5;
    v[42].mass = 1000;
    let qt = QuadTree::new(v).unwrap();
    assert_eq!(check_node(&qt.root), (100 - 2 + 5 + 1000, 100));
}

#[test]
fn root_centre_of_mass() {
    let v = vec![particle(0, 0, 1), particle(10, 0, 3), particle(0, 9, 2)];
    let qt = QuadTree::new(v).unwrap();
    match &qt.root {
        Node::Many(stats, _) => {
            assert_eq!(stats.com.mass, 6);
            assert_eq!(stats.num_particles, 3);
            // (0 + 30 + 0) / 6 and (0 + 0 + 18) / 6
            assert_eq!(stats.com.pos, PhysVec { x: 5, y: 3 });
            // the box is 10 by 9: centred on (5, 4.5), side 10
            assert_eq!((stats.centre_x, stats.centre_y, stats.scale), (10, 9, 1));
            assert_eq!((stats.width, stats.height), (10, 10));
        }
        _ => panic!("three particles make an internal root"),
    }
}

#[test]
fn rebuild_is_identical() {
    let v = dummy_particles(50);
    let a = QuadTree::new(v.clone()).unwrap();
    let b = QuadTree::new(v.clone()).unwrap();
    assert_eq!(a, b);
}

#[test]
fn pair_force_exact_values() {
    let p1 = particle(0, 0, 1);
    let p2 = particle(3, 4, 2);
    // 65536 * 1 * 2 * (3, 4) / 25, rounded toward zero
    assert_eq!(force(&p1, &p2), Force { x: 15728, y: 20971 });
    let p3 = particle(-3, -4, 2);
    assert_eq!(force(&p1, &p3), Force { x: -15728, y: -20971 });
}

#[test]
fn self_force_is_zero() {
    let p = particle(4, 4, 3);
    let twin = Particle { pos: PhysVec { x: 4, y: 4 }, vel: PhysVec { x: 1, y: 0 }, mass: 7 };
    assert_eq!(force(&p, &p), Force { x: 0, y: 0 });
    assert_eq!(force(&p, &twin), Force { x: 0, y: 0 });
    let th = Ratio { num: 1, den: 2 };
    assert_eq!(bh_force(&p, &Node::One(p), th), None);
    assert_eq!(bh_force(&p, &Node::Zero, th), None);
    let qt = QuadTree::new(vec![p]).unwrap();
    assert_eq!(qt.force(p, th), Force { x: 0, y: 0 });
}

#[test]
fn coincident_particles_terminate_and_exert_nothing_on_each_other() {
    let a = particle(5, 5, 1);
    let b = particle(5, 5, 2);
    let c = particle(5, 5, 3);
    let far = particle(105, 5, 1);
    let v = vec![a, b, c, far];
    let qt = QuadTree::new(v.clone()).unwrap();
    assert_eq!(check_node(&qt.root), (7, 4));
    let th = Ratio { num: 1000, den: 1 };
    assert_eq!(qt.force(a, th), force(&a, &far));
    let on_far = qt.force(far, th);
    assert!(on_far.x < 0);
    assert_eq!(on_far.y, 0);
}

#[test]
fn full_opening_matches_pairwise_sum() {
    let pcls = dummy_particles(20);
    let qt = QuadTree::new(pcls.clone()).unwrap();
    let th = Ratio { num: 1_000_000, den: 1 };
    for p in pcls.iter() {
        assert_eq!(qt.force(*p, th), exact_force(&pcls, p));
        assert_eq!(exact_force(&pcls, p), pairwise_sum(&pcls, p));
    }
}

#[test]
fn diagonal_scenario_is_close_to_exact() {
    let pcls = dummy_particles(10);
    let qt = QuadTree::new(pcls.clone()).unwrap();
    match &qt.root {
        Node::Many(stats, _) => {
            assert_eq!(stats.com.mass, 10);
            assert_eq!(stats.num_particles, 10);
        }
        _ => panic!("ten particles make an internal root"),
    }
    let th = Ratio { num: 1, den: 1 };
    let approx = qt.force(pcls[0], th);
    let exact = pairwise_sum(&pcls, &pcls[0]);
    assert!(rel_error(&approx, &exact) < 0.05);
}

#[test]
fn vector_operations() {
    let mut a = PhysVec { x: 1, y: 2 };
    a.add(&PhysVec { x: 3, y: 4 });
    assert_eq!(a, PhysVec { x: 4, y: 6 });
    assert_eq!(PhysVec { x: 1, y: 2 }.dot(&PhysVec { x: 3, y: 4 }), 11);
    assert_eq!(PhysVec { x: 1, y: 2 }.diff(PhysVec { x: 4, y: 6 }), PhysVec { x: 3, y: 4 });
    assert_eq!(PhysVec { x: 3, y: 4 }.modulus(), 5);
    assert_eq!(PhysVec { x: -5, y: 12 }.modulus(), 13);
    assert_eq!(PhysVec { x: 1, y: 1 }.modulus(), 1);
    assert_eq!(PhysVec { x: 0, y: 0 }.modulus(), 0);
}

#[test]
fn integrator_exact_values() {
    let mut p = Particle { pos: PhysVec { x: 10, y: 20 }, vel: PhysVec { x: 0, y: 0 }, mass: 2 };
    let dt = Ratio { num: 1, den: 2 };
    let f = Force { x: 655360, y: -655360 };
    // 655360 / (2 * 2 * 65536) = 2.5, rounded toward zero
    assert!(stepvel(&mut p, f, true, dt));
    assert_eq!(p.vel, PhysVec { x: 2, y: -2 });
    assert!(p.steppos(dt));
    assert_eq!(p.pos, PhysVec { x: 11, y: 19 });
    let mut q = Particle { pos: PhysVec { x: 0, y: 0 }, vel: PhysVec { x: 0, y: 0 }, mass: 2 };
    assert!(stepvel(&mut q, f, false, dt));
    assert_eq!(q.vel, PhysVec { x: -2, y: 2 });
}

#[test]
fn step_out_of_range_changes_nothing() {
    let edge = Particle {
        pos: PhysVec { x: COORD_LIMIT, y: 0 },
        vel: PhysVec { x: COORD_LIMIT, y: 0 },
        mass: 1,
    };
    let dt = Ratio { num: 1, den: 1 };
    let mut p = edge;
    assert!(!p.steppos(dt));
    assert_eq!(p, edge);
    let mut v = vec![edge];
    assert_eq!(bh_stepsim(&mut v, Ratio { num: 1, den: 1 }, dt), Err(StepError::OutOfRange));
    assert_eq!(v, vec![edge]);
    assert_eq!(exact_stepsim(&mut v, dt), Err(StepError::OutOfRange));
    assert_eq!(v, vec![edge]);
}

#[test]
fn single_particle_drifts() {
    let mut v = vec![Particle { pos: PhysVec { x: 1, y: 1 }, vel: PhysVec { x: 2, y: -3 }, mass: 1 }];
    let dt = Ratio { num: 1, den: 1 };
    assert_eq!(bh_stepsim(&mut v, Ratio { num: 1, den: 1 }, dt), Ok(()));
    assert_eq!(v[0].pos, PhysVec { x: 3, y: -2 });
    let mut empty: Vec<Particle> = Vec::new();
    assert_eq!(bh_stepsim(&mut empty, Ratio { num: 1, den: 1 }, dt), Ok(()));
    assert!(empty.is_empty());
}

#[test]
fn two_body_step_pulls_together() {
    let mut v = vec![particle(0, 0, 1), particle(4, 0, 1)];
    let dt = Ratio { num: 1, den: 1 };
    assert_eq!(bh_stepsim(&mut v, Ratio { num: 1, den: 2 }, dt), Ok(()));
    // force 65536 * 4 / 16 = 16384 units, a kick of 16384 / 65536 rounds to 0
    assert_eq!(v[0].vel, PhysVec { x: 0, y: 0 });
    let mut w = vec![particle(0, 0, 1), particle(1, 0, 100)];
    assert_eq!(exact_stepsim(&mut w, dt), Ok(()));
    // force on the light one: 65536 * 100 / 1 units, a kick of 100
    assert_eq!(w[0].vel, PhysVec { x: 100, y: 0 });
    assert_eq!(w[0].pos, PhysVec { x: 100, y: 0 });
    assert_eq!(w[1].vel, PhysVec { x: -1, y: 0 });
}

#[test]
fn collected_forces_match_serial_step() {
    let pcls = dummy_particles(12);
    let th = Ratio { num: 1, den: 1 };
    let dt = Ratio { num: 1, den: 20 };
    let qt = QuadTree::new(pcls.clone()).unwrap();
    let mut c = Collector::new(pcls.len());
    for ix in (0..pcls.len()).rev() {
        assert!(!c.is_complete());
        assert_eq!(c.receive(ix, qt.force(pcls[ix], th)), Ok(()));
    }
    assert_eq!(c.receive(3, Force { x: 1, y: 1 }), Err(CollectError::Duplicate));
    assert_eq!(c.receive(12, Force { x: 1, y: 1 }), Err(CollectError::UnknownIndex));
    assert!(c.is_complete());
    let forces = c.finish().unwrap();
    for (ix, p) in pcls.iter().enumerate() {
        assert_eq!(forces[ix], qt.force(*p, th));
    }
    let mut parallel = pcls.clone();
    assert_eq!(apply_forces(&mut parallel, &forces, dt), Ok(()));
    let mut serial = pcls.clone();
    assert_eq!(bh_stepsim(&mut serial, th, dt), Ok(()));
    assert_eq!(parallel, serial);
}

#[test]
fn incomplete_collection_gives_nothing() {
    let mut c = Collector::new(3);
    assert_eq!(c.receive(0, Force { x: 1, y: 2 }), Ok(()));
    assert_eq!(c.receive(2, Force { x: 3, y: 4 }), Ok(()));
    assert!(!c.is_complete());
    assert_eq!(c.finish(), None);
}

#[test]
fn oversized_force_is_refused() {
    let pcls = vec![particle(0, 0, 1)];
    let mut v = pcls.clone();
    let huge = vec![Force { x: i128::MAX, y: 0 }];
    assert_eq!(apply_forces(&mut v, &huge, Ratio { num: 1, den: 1 }), Err(StepError::OutOfRange));
    assert_eq!(v, pcls);
}

#[test]
fn config_values() {
    let d = Display { width: 2048, height: 1024 };
    assert_eq!(d, Display { width: 2048, height: 1024 });
    let o = DisplayOpt { width: Some(800), height: None };
    assert_eq!(o.height, None);
    assert_ne!(GalaxyShape::Concentric(5), GalaxyShape::Concentric(4));
    assert_ne!(SimType::BarnesHut, SimType::Classical);
}

#[test]
fn pointers_follow_the_snapshot() {
    let v = dummy_particles(5);
    let ptrs = barnes_hut::barneshut::pcl_pointers(&v);
    assert_eq!(ptrs.len(), 5);
    for (ix, p) in ptrs.iter().enumerate() {
        assert_eq!(**p, v[ix]);
    }
}

#[test]
fn empty_collector_is_complete() {
    let c = Collector::new(0);
    assert!(c.is_complete());
    assert_eq!(c.finish(), Some(Vec::new()));
}

#[test]
fn modulus_of_large_vectors() {
    let v = PhysVec { x: COORD_LIMIT, y: COORD_LIMIT };
    // floor(2^30 * sqrt 2)
    assert_eq!(v.modulus(), 1518500249);
    let w = PhysVec { x: i64::MIN, y: 0 };
    assert_eq!(w.modulus(), 1u64 << 63);
}

#[test]
fn single_particle_box_and_tree() {
    let p = particle(-7, 9, 3);
    assert_eq!(find_bounding_box(&vec![p]), Some((-7, -7, 9, 9)));
    let qt = QuadTree::new(vec![p]).unwrap();
    assert_eq!(qt.root, Node::One(p));
}

/// Checks that every leaf lies in the square of each internal node above it;
/// that, below a node whose particles are not all at one position, children
/// hold their quadrant's particles and internal children are centred a
/// quarter side away with half the side; returns the leaves.
fn check_geometry(node: &Node) -> Vec<Particle> {
    match node {
        Node::Zero => Vec::new(),
        Node::One(p) => vec![*p],
        Node::Many(s, b) => {
            let kids = [&b.tl, &b.tr, &b.bl, &b.br];
            let leaves: Vec<Vec<Particle>> = kids.iter().map(|k| check_geometry(k)).collect();
            let all: Vec<Particle> = leaves.iter().flatten().cloned().collect();
            let (c, d, sc, w) = (s.centre_x, s.centre_y, s.scale as i128, s.width as i128);
            for p in &all {
                let (x, y) = (p.pos.x as i128, p.pos.y as i128);
                assert!(c - w <= 2 * sc * x && 2 * sc * x <= c + w);
                assert!(d - w <= 2 * sc * y && 2 * sc * y <= d + w);
            }
            let one_place = all.iter().all(|p| p.pos == all[0].pos);
            if !one_place {
                let (xs, ys) = (c.div_euclid(2 * sc), d.div_euclid(2 * sc));
                let centres = [(2 * c - w, 2 * d + w), (2 * c + w, 2 * d + w), (2 * c - w, 2 * d - w), (2 * c + w, 2 * d - w)];
                for (q, kid) in kids.iter().enumerate() {
                    if let Node::Many(ks, _) = &***kid {
                        assert_eq!((ks.centre_x, ks.centre_y), centres[q]);
                        assert_eq!((ks.scale, ks.width), (2 * s.scale, s.width));
                    }
                    for p in &leaves[q] {
                        let right = p.pos.x as i128 > xs;
                        let top = p.pos.y as i128 > ys;
                        let expect = match (top, right) {
                            (true, false) => 0,
                            (true, true) => 1,
                            (false, false) => 2,
                            (false, true) => 3,
                        };
                        assert_eq!(q, expect);
                    }
                }
            }
            all
        }
    }
}

#[test]
fn every_leaf_lies_in_its_squares() {
    let mut v = dummy_particles(60);
    v.push(particle(-40, 17, 3));
    v.push(particle(-40, 17, 4));
    v.push(particle(33, -90, 1));
    let qt = QuadTree::new(v.clone()).unwrap();
    assert_eq!(check_geometry(&qt.root).len(), v.len());
}

#[test]
fn neighbours_one_unit_apart_are_split() {
    let a = particle(0, 0, 1);
    let b = particle(1, 0, 1);
    let c = particle(4, 0, 1);
    let v = vec![a, b, c];
    let qt = QuadTree::new(v.clone()).unwrap();
    check_geometry(&qt.root);
    let widest = Ratio { num: u32::MAX, den: 1 };
    for p in &v {
        assert_eq!(qt.force(*p, widest), pairwise_sum(&v, p));
    }
    // from threshold 2 on, no square holding b passes the opening test for b,
    // so b's own mass never enters the force on it
    for num in [2u32, 5, 100] {
        let f = qt.force(b, Ratio { num, den: 1 });
        assert!(f.x < 0);
        assert_ne!(f.x, -109227);
    }
}

#[test]
fn root_square_is_centred_on_the_box_with_its_larger_side() {
    let qt = QuadTree::new(vec![particle(0, 0, 1), particle(6, 0, 1)]).unwrap();
    match &qt.root {
        Node::Many(stats, _) => {
            // centre (6, 0) / 2 = (3, 0), side 6
            assert_eq!((stats.centre_x, stats.centre_y, stats.scale), (6, 0, 1));
            assert_eq!((stats.width, stats.height), (6, 6));
        }
        _ => panic!("two particles make an internal root"),
    }
    let qt = QuadTree::new(vec![particle(0, 0, 1), particle(3, 1, 1), particle(1, 5, 1)]).unwrap();
    match &qt.root {
        Node::Many(stats, b) => {
            // centre (1.5, 2.5), side 5; children centred at (0.25 or 2.75, 1.25 or 3.75)
            assert_eq!((stats.centre_x, stats.centre_y, stats.scale, stats.width), (3, 5, 1, 5));
            check_geometry(&qt.root);
            assert_eq!(*b.bl, Node::One(particle(0, 0, 1)));
            assert_eq!(*b.br, Node::One(particle(3, 1, 1)));
            assert_eq!(*b.tl, Node::One(particle(1, 5, 1)));
        }
        _ => panic!("three particles make an internal root"),
    }
}

#[test]
fn results_in_any_order_give_the_serial_step() {
    let pcls = dummy_particles(9);
    let th = Ratio { num: 1, den: 1 };
    let dt = Ratio { num: 1, den: 20 };
    let qt = QuadTree::new(pcls.clone()).unwrap();
    let order = [4usize, 8, 0, 2, 7, 1, 5, 3, 6];
    let results: Vec<(usize, Force)> = order.iter().map(|&ix| (ix, qt.force(pcls[ix], th))).collect();
    let mut parallel = pcls.clone();
    assert_eq!(step_from_results(&mut parallel, &results, dt), Ok(()));
    let mut serial = pcls.clone();
    assert_eq!(bh_stepsim(&mut serial, th, dt), Ok(()));
    assert_eq!(parallel, serial);
}

#[test]
fn bad_results_leave_the_particles_unchanged() {
    let pcls = dummy_particles(3);
    let dt = Ratio { num: 1, den: 1 };
    let f = Force { x: 0, y: 0 };
    let mut v = pcls.clone();
    assert_eq!(
        step_from_results(&mut v, &vec![(0, f), (0, f), (2, f)], dt),
        Err(DispatchError::Collect(CollectError::Duplicate))
    );
    assert_eq!(
        step_from_results(&mut v, &vec![(0, f), (3, f)], dt),
        Err(DispatchError::Collect(CollectError::UnknownIndex))
    );
    assert_eq!(step_from_results(&mut v, &vec![(0, f), (2, f)], dt), Err(DispatchError::Missing));
    assert_eq!(v, pcls);
    let huge = Force { x: i128::MAX, y: 0 };
    assert_eq!(
        step_from_results(&mut v, &vec![(0, huge), (1, f), (2, f)], dt),
        Err(DispatchError::Step(StepError::OutOfRange))
    );
    assert_eq!(v, pcls);
}
