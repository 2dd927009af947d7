//! Collection of per-particle results from concurrent workers: every index
//! must arrive exactly once before a step can be integrated.
use crate::barneshut::{tree_forces_of, tree_force};
use crate::physics::{
    apply_forces, force_pairs, snapshot_wf, step_outcome, Force, Particle, Ratio, StepError,
};
use vstd::prelude::*;

verus! {

/// Why a result was refused.
#[derive(Clone, Copy, PartialEq, Eq, Structural, Debug)]
pub enum CollectError {
    /// The index names no particle of the snapshot.
    UnknownIndex,
    /// A result for this index has already arrived.
    Duplicate,
}

/// The number of filled slots.
pub open spec fn count_filled(s: Seq<Option<Force>>) -> nat
    decreases s.len(),
{
    if s.len() == 0 {
        0
    } else {
        count_filled(s.drop_last()) + if s.last() is Some {
            1nat
        } else {
            0nat
        }
    }
}

/// One slot per particle index; a slot is filled by the first result for its index.
pub struct Collector {
    slots: Vec<Option<Force>>,
    received: usize,
}

impl Collector {
    /// The slots, one per particle index.
    pub closed spec fn slots(&self) -> Seq<Option<Force>> {
        self.slots@
    }

    /// The number of results taken so far.
    pub closed spec fn received(&self) -> nat {
        self.received as nat
    }

    pub closed spec fn wf(&self) -> bool {
        self.received == count_filled(self.slots@)
    }

    /// Every index has its result.
    pub open spec fn complete(&self) -> bool {
        forall|i: int| 0 <= i < self.slots().len() ==> (#[trigger] self.slots()[i]) is Some
    }

    /// A collector for `n` particles, with no result yet.
    pub fn new(n: usize) -> (r: Collector)
        ensures
            r.wf(),
            r.slots().len() == n,
            forall|i: int| 0 <= i < n ==> (#[trigger] r.slots()[i]) is None,
            r.received() == 0,
    {
        let mut slots: Vec<Option<Force>> = Vec::new();
        let mut i: usize = 0;
        while i < n
            invariant
                i <= n,
                slots@.len() == i,
                forall|k: int| 0 <= k < i ==> (#[trigger] slots@[k]) is None,
                count_filled(slots@) == 0,
            decreases n - i,
        {
            let ghost prev = slots@;
            slots.push(None);
            assert(slots@.drop_last() =~= prev);
            i += 1;
        }
        Collector { slots, received: 0 }
    }

    /// Takes the result `f` for particle `ix`. An index out of range or one
    /// that already has its result is refused, and nothing changes.
    pub fn receive(&mut self, ix: usize, f: Force) -> (r: Result<(), CollectError>)
        requires
            old(self).wf(),
        ensures
            final(self).wf(),
            ix >= old(self).slots().len() ==> r == Err::<(), CollectError>(CollectError::UnknownIndex)
                && *final(self) == *old(self),
            ix < old(self).slots().len() && old(self).slots()[ix as int] is Some ==> r == Err::<
                (),
                CollectError,
            >(CollectError::Duplicate) && *final(self) == *old(self),
            ix < old(self).slots().len() && old(self).slots()[ix as int] is None ==> r is Ok
                && final(self).slots() == old(self).slots().update(ix as int, Some(f))
                && final(self).received() == old(self).received() + 1,
    {
        if ix >= self.slots.len() {
            return Err(CollectError::UnknownIndex);
        }
        if self.slots[ix].is_some() {
            return Err(CollectError::Duplicate);
        }
        proof {
            lemma_count_update(self.slots@, ix as int, Some(f));
            lemma_count_bound(self.slots@.update(ix as int, Some(f)));
        }
        self.slots.set(ix, Some(f));
        self.received = self.received + 1;
        Ok(())
    }

    /// Whether every index has its result.
    pub fn is_complete(&self) -> (r: bool)
        requires
            self.wf(),
        ensures
            r == self.complete(),
    {
        proof {
            lemma_count_full(self.slots@);
        }
        self.received == self.slots.len()
    }

    /// The forces by index, once every index has its result.
    pub fn finish(self) -> (r: Option<Vec<Force>>)
        requires
            self.wf(),
        ensures
            r is Some <==> self.complete(),
            r matches Some(v) ==> v@.len() == self.slots().len() && forall|i: int|
                0 <= i < v@.len() ==> self.slots()[i] == Some(#[trigger] v@[i]),
    {
        if !self.is_complete() {
            return None;
        }
        let mut v: Vec<Force> = Vec::new();
        let mut i: usize = 0;
        while i < self.slots.len()
            invariant
                i <= self.slots@.len(),
                self.complete(),
                v@.len() == i,
                forall|k: int| 0 <= k < i ==> self.slots@[k] == Some(#[trigger] v@[k]),
            decreases self.slots@.len() - i,
        {
            assert(self.slots@[i as int] is Some);
            match self.slots[i] {
                Some(f) => v.push(f),
                None => {},
            }
            i += 1;
        }
        Some(v)
    }
}

proof fn lemma_count_bound(s: Seq<Option<Force>>)
    ensures
        count_filled(s) <= s.len(),
    decreases s.len(),
{
    if s.len() > 0 {
        lemma_count_bound(s.drop_last());
    }
}

proof fn lemma_count_update(s: Seq<Option<Force>>, i: int, v: Option<Force>)
    requires
        0 <= i < s.len(),
        s[i] is None,
        v is Some,
    ensures
        count_filled(s.update(i, v)) == count_filled(s) + 1,
    decreases s.len(),
{
    if i < s.len() - 1 {
        assert(s.update(i, v).drop_last() =~= s.drop_last().update(i, v));
        lemma_count_update(s.drop_last(), i, v);
    } else {
        assert(s.update(i, v).drop_last() =~= s.drop_last());
    }
}

/// All slots are filled exactly when their count is the number of slots.
proof fn lemma_count_full(s: Seq<Option<Force>>)
    ensures
        count_filled(s) == s.len() <==> forall|i: int| 0 <= i < s.len() ==> (#[trigger] s[i]) is Some,
    decreases s.len(),
{
    if s.len() > 0 {
        lemma_count_full(s.drop_last());
        lemma_count_bound(s.drop_last());
        if count_filled(s) == s.len() {
            assert forall|i: int| 0 <= i < s.len() implies (#[trigger] s[i]) is Some by {
                if i < s.len() - 1 {
                    assert(s.drop_last()[i] == s[i]);
                }
            }
        }
        if forall|i: int| 0 <= i < s.len() ==> (#[trigger] s[i]) is Some {
            assert forall|i: int| 0 <= i < s.drop_last().len() implies (
            #[trigger] s.drop_last()[i]) is Some by {
                assert(s[i] is Some);
            }
            assert(s[s.len() - 1] is Some);
        }
    }
}

/// Once as many results as particles have been taken, every index has exactly
/// its one result: no index is missing.
pub proof fn lemma_received_all(c: Collector)
    requires
        c.wf(),
        c.received() == c.slots().len(),
    ensures
        c.complete(),
{
    lemma_count_full(c.slots());
}

/// Why a step from collected results was refused.
#[derive(Clone, Copy, PartialEq, Eq, Structural, Debug)]
pub enum DispatchError {
    /// A result was refused.
    Collect(CollectError),
    /// Some index has no result.
    Missing,
    /// The integration was refused.
    Step(StepError),
}

/// The slots after taking `results` in order into `n` empty slots, or the
/// first refusal.
pub open spec fn collect_spec(results: Seq<(usize, Force)>, n: nat) -> Result<
    Seq<Option<Force>>,
    CollectError,
>
    decreases results.len(),
{
    if results.len() == 0 {
        Ok(Seq::new(n, |i: int| None))
    } else {
        match collect_spec(results.drop_last(), n) {
            Err(e) => Err(e),
            Ok(s) => {
                let (ix, f) = results.last();
                if ix >= n {
                    Err(CollectError::UnknownIndex)
                } else if s[ix as int] is Some {
                    Err(CollectError::Duplicate)
                } else {
                    Ok(s.update(ix as int, Some(f)))
                }
            },
        }
    }
}

pub open spec fn slots_full(s: Seq<Option<Force>>) -> bool {
    forall|i: int| 0 <= i < s.len() ==> (#[trigger] s[i]) is Some
}

/// The forces of filled slots.
pub open spec fn forces_of(s: Seq<Option<Force>>) -> Seq<Force> {
    s.map_values(
        |o: Option<Force>|
            match o {
                Some(f) => f,
                None => Force { x: 0, y: 0 },
            },
    )
}

/// Exactly one result for each index below `n`, in any order.
pub open spec fn one_per_index(results: Seq<(usize, Force)>, n: nat) -> bool {
    &&& results.len() == n
    &&& forall|k: int| 0 <= k < results.len() ==> (#[trigger] results[k]).0 < n
    &&& forall|k: int, l: int|
        0 <= k < l < results.len() ==> (#[trigger] results[k]).0 != (#[trigger] results[l]).0
}

/// A refusal while taking a prefix of the results stands for all of them.
proof fn lemma_collect_err_prefix(results: Seq<(usize, Force)>, m: int, n: nat)
    requires
        0 <= m <= results.len(),
        collect_spec(results.subrange(0, m), n) is Err,
    ensures
        collect_spec(results, n) == collect_spec(results.subrange(0, m), n),
    decreases results.len() - m,
{
    if m < results.len() {
        let next = results.subrange(0, m + 1);
        assert(next.drop_last() =~= results.subrange(0, m));
        lemma_collect_err_prefix(results, m + 1, n);
    } else {
        assert(results.subrange(0, m) =~= results);
    }
}

/// Distinct indices in range, taken in any order, fill one slot each with
/// their own result.
proof fn lemma_collect_distinct(results: Seq<(usize, Force)>, n: nat)
    requires
        forall|k: int| 0 <= k < results.len() ==> (#[trigger] results[k]).0 < n,
        forall|k: int, l: int|
            0 <= k < l < results.len() ==> (#[trigger] results[k]).0 != (#[trigger] results[l]).0,
    ensures
        collect_spec(results, n) is Ok,
        ({
            let s = collect_spec(results, n)->Ok_0;
            &&& s.len() == n
            &&& count_filled(s) == results.len()
            &&& forall|k: int|
                0 <= k < results.len() ==> s[(#[trigger] results[k]).0 as int] == Some(
                    results[k].1,
                )
            &&& forall|j: int|
                0 <= j < n && (#[trigger] s[j]) is Some ==> exists|k: int|
                    0 <= k < results.len() && results[k].0 == j
        }),
    decreases results.len(),
{
    if results.len() == 0 {
        let s = Seq::new(n, |i: int| None::<Force>);
        assert(count_filled(s) == 0) by {
            lemma_count_none(s);
        }
    } else {
        let init = results.drop_last();
        assert forall|k: int, l: int| 0 <= k < l < init.len() implies (#[trigger] init[k]).0 != (
        #[trigger] init[l]).0 by {
            assert(init[k] == results[k] && init[l] == results[l]);
        }
        assert forall|k: int| 0 <= k < init.len() implies (#[trigger] init[k]).0 < n by {
            assert(init[k] == results[k]);
        }
        lemma_collect_distinct(init, n);
        let s0 = collect_spec(init, n)->Ok_0;
        let (ix, f) = results.last();
        let last = results.len() - 1;
        assert(results[last].0 == ix);
        if s0[ix as int] is Some {
            let k = choose|k: int| 0 <= k < init.len() && init[k].0 == ix;
            assert(results[k].0 == results[last].0);
            assert(false);
        }
        lemma_count_update(s0, ix as int, Some(f));
        let s = s0.update(ix as int, Some(f));
        assert forall|k: int| 0 <= k < results.len() implies s[(#[trigger] results[k]).0 as int]
            == Some(results[k].1) by {
            if k < last {
                assert(init[k] == results[k]);
                assert(results[k].0 != results[last].0);
            }
        }
        assert forall|j: int| 0 <= j < n && (#[trigger] s[j]) is Some implies exists|k: int|
            0 <= k < results.len() && results[k].0 == j by {
            if j != ix {
                assert(s0[j] is Some);
                let k = choose|k: int| 0 <= k < init.len() && init[k].0 == j;
                assert(results[k].0 == j);
            } else {
                assert(results[last].0 == j);
            }
        }
    }
}

proof fn lemma_count_none(s: Seq<Option<Force>>)
    requires
        forall|i: int| 0 <= i < s.len() ==> (#[trigger] s[i]) is None,
    ensures
        count_filled(s) == 0,
    decreases s.len(),
{
    if s.len() > 0 {
        assert forall|i: int| 0 <= i < s.drop_last().len() implies (#[trigger] s.drop_last()[i]) is None by {
            assert(s.drop_last()[i] == s[i]);
        }
        lemma_count_none(s.drop_last());
        assert(s[s.len() - 1] is None);
    }
}

/// Results from workers, arriving in any order, one per index and each the
/// force through the tree of the same snapshot with the same threshold, fill
/// every slot and give the very step that the serial traversal gives.
pub proof fn lemma_any_order_matches_serial(
    ps: Seq<Particle>,
    results: Seq<(usize, Force)>,
    th: Ratio,
    dt: Ratio,
)
    requires
        one_per_index(results, ps.len()),
        forall|k: int|
            0 <= k < results.len() ==> ((#[trigger] results[k]).1.x as int, results[k].1.y as int)
                == tree_force(ps, results[k].0 as int, th),
    ensures
        collect_spec(results, ps.len()) is Ok,
        slots_full(collect_spec(results, ps.len())->Ok_0),
        step_outcome(ps, force_pairs(forces_of(collect_spec(results, ps.len())->Ok_0)), dt)
            == step_outcome(ps, tree_forces_of(ps, th), dt),
{
    lemma_collect_distinct(results, ps.len());
    let s = collect_spec(results, ps.len())->Ok_0;
    lemma_count_full(s);
    assert forall|j: int| 0 <= j < ps.len() implies force_pairs(forces_of(s))[j]
        == tree_forces_of(ps, th)[j] by {
        assert(s[j] is Some);
        let k = choose|k: int| 0 <= k < results.len() && results[k].0 == j;
        assert(s[results[k].0 as int] == Some(results[k].1));
    }
    assert(force_pairs(forces_of(s)) =~= tree_forces_of(ps, th));
}

/// The coordinator's side of a concurrent step: takes the workers' results in
/// the order they arrived, one slot per particle, then integrates every
/// particle under its own force (see `step_outcome`). A result for an unknown
/// index or a second result for an index is refused, as is a step where some
/// index has no result; where anything is refused, the particles are unchanged.
pub fn step_from_results(particles: &mut Vec<Particle>, results: &Vec<(usize, Force)>, dt: Ratio) -> (r:
    Result<(), DispatchError>)
    requires
        snapshot_wf(old(particles)@),
        dt.wf(),
    ensures
        match collect_spec(results@, old(particles)@.len()) {
            Err(e) => r == Err::<(), DispatchError>(DispatchError::Collect(e)) && final(particles)@
                == old(particles)@,
            Ok(s) => if !slots_full(s) {
                r == Err::<(), DispatchError>(DispatchError::Missing) && final(particles)@ == old(
                    particles,
                )@
            } else {
                match step_outcome(old(particles)@, force_pairs(forces_of(s)), dt) {
                    Some(next) => r is Ok && final(particles)@ == next,
                    None => r == Err::<(), DispatchError>(
                        DispatchError::Step(StepError::OutOfRange),
                    ) && final(particles)@ == old(particles)@,
                }
            },
        },
{
    let ghost rs = results@;
    let n = particles.len();
    let mut c = Collector::new(n);
    assert(c.slots() =~= Seq::new(n as nat, |i: int| None::<Force>));
    let mut i: usize = 0;
    while i < results.len()
        invariant
            i <= rs.len(),
            rs == results@,
            c.wf(),
            c.slots().len() == n,
            n == old(particles)@.len(),
            particles@ == old(particles)@,
            collect_spec(rs.subrange(0, i as int), n as nat) == Ok::<Seq<Option<Force>>, CollectError>(c.slots()),
        decreases rs.len() - i,
    {
        let (ix, f) = results[i];
        assert(rs.subrange(0, i + 1).drop_last() =~= rs.subrange(0, i as int));
        assert(rs.subrange(0, i + 1).last() == (ix, f));
        match c.receive(ix, f) {
            Err(e) => {
                proof {
                    lemma_collect_err_prefix(rs, i + 1, n as nat);
                }
                return Err(DispatchError::Collect(e));
            },
            Ok(()) => {},
        }
        i += 1;
    }
    assert(rs.subrange(0, rs.len() as int) =~= rs);
    let ghost slots = c.slots();
    match c.finish() {
        None => Err(DispatchError::Missing),
        Some(forces) => {
            assert(force_pairs(forces@) =~= force_pairs(forces_of(slots)));
            match apply_forces(particles, &forces, dt) {
                Ok(()) => Ok(()),
                Err(e) => Err(DispatchError::Step(e)),
            }
        },
    }
}

} // verus!
