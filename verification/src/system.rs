//! Systems: units of logic executed against the world once per tick, under a
//! declared access footprint. A system's contract ties its execution to a
//! whole-step function of the world model, confined to the footprint: the
//! step changes nothing outside the declared write-sets, and depends on
//! nothing outside the declared read- and write-sets. These two obligations
//! are what make concurrent scheduling of disjoint systems safe.

use crate::world::{WorldData, WorldView};
use vstd::prelude::*;

verus! {

/// The set of ids named by a list.
pub open spec fn id_set(s: Seq<usize>) -> Set<int> {
    Set::new(|c: int| exists|k: int| 0 <= k < s.len() && (#[trigger] s[k]) as int == c)
}

/// A one-element id list names a one-element id set.
pub proof fn lemma_id_set_singleton(s: Seq<usize>, x: usize)
    requires
        s.len() == 1,
        s[0] == x,
    ensures
        id_set(s) == set![x as int],
{
    assert forall|c: int| id_set(s).contains(c) implies set![x as int].contains(c) by {
        let k = choose|k: int| 0 <= k < s.len() && (#[trigger] s[k]) as int == c;
        assert(k == 0);
    }
    assert forall|c: int| set![x as int].contains(c) implies id_set(s).contains(c) by {
        assert((#[trigger] s[0]) as int == c);
    }
    assert(id_set(s) =~= set![x as int]);
}

/// An empty id list names the empty id set.
pub proof fn lemma_id_set_empty(s: Seq<usize>)
    requires
        s.len() == 0,
    ensures
        id_set(s) == Set::<int>::empty(),
{
    assert forall|c: int| !id_set(s).contains(c) by {
        if id_set(s).contains(c) {
            let k = choose|k: int| 0 <= k < s.len() && (#[trigger] s[k]) as int == c;
        }
    }
    assert(id_set(s) =~= Set::<int>::empty());
}

/// A system's declared access footprint: the component types and resource
/// types it reads and the ones it writes.
pub struct Footprint {
    pub comp_reads: Vec<usize>,
    pub comp_writes: Vec<usize>,
    pub res_reads: Vec<usize>,
    pub res_writes: Vec<usize>,
}

/// A footprint's mathematical content: four id sets.
#[verifier::ext_equal]
pub ghost struct FootprintView {
    pub comp_reads: Set<int>,
    pub comp_writes: Set<int>,
    pub res_reads: Set<int>,
    pub res_writes: Set<int>,
}

impl View for Footprint {
    type V = FootprintView;

    open spec fn view(&self) -> FootprintView {
        FootprintView {
            comp_reads: id_set(self.comp_reads@),
            comp_writes: id_set(self.comp_writes@),
            res_reads: id_set(self.res_reads@),
            res_writes: id_set(self.res_writes@),
        }
    }
}

/// Two world models with the same population: equally many entities, with
/// matching identifiers and slot counts, and equally many resource slots.
pub open spec fn same_shape(a: WorldView, b: WorldView) -> bool {
    &&& a.entities.len() == b.entities.len()
    &&& forall|e: int|
        0 <= e < a.entities.len() ==> (#[trigger] a.entities[e]).id == b.entities[e].id
            && a.entities[e].slots.len() == b.entities[e].slots.len()
    &&& a.resources.len() == b.resources.len()
}

/// The two models agree on every component slot whose type id lies in `cs`.
pub open spec fn comps_agree_on(a: WorldView, b: WorldView, cs: Set<int>) -> bool {
    forall|e: int, c: int|
        0 <= e < a.entities.len() && 0 <= c < a.entities[e].slots.len() && cs.contains(c)
            ==> (#[trigger] a.entities[e].slots[c]) == b.entities[e].slots[c]
}

/// The two models agree on every component slot whose type id lies outside
/// `cs`.
pub open spec fn comps_agree_outside(a: WorldView, b: WorldView, cs: Set<int>) -> bool {
    forall|e: int, c: int|
        0 <= e < a.entities.len() && 0 <= c < a.entities[e].slots.len() && !cs.contains(c)
            ==> (#[trigger] a.entities[e].slots[c]) == b.entities[e].slots[c]
}

/// The two models agree on every resource slot whose type id lies in `rs`.
pub open spec fn res_agree_on(a: WorldView, b: WorldView, rs: Set<int>) -> bool {
    forall|r: int|
        0 <= r < a.resources.len() && rs.contains(r) ==> (#[trigger] a.resources[r])
            == b.resources[r]
}

/// The two models agree on every resource slot whose type id lies outside
/// `rs`.
pub open spec fn res_agree_outside(a: WorldView, b: WorldView, rs: Set<int>) -> bool {
    forall|r: int|
        0 <= r < a.resources.len() && !rs.contains(r) ==> (#[trigger] a.resources[r])
            == b.resources[r]
}

/// A step confined to its write-sets: the population is unchanged, and so is
/// every component and resource slot the write-sets do not cover.
pub open spec fn sys_frame(pre: WorldView, post: WorldView, cw: Set<int>, rw: Set<int>) -> bool {
    &&& same_shape(pre, post)
    &&& comps_agree_outside(pre, post, cw)
    &&& res_agree_outside(pre, post, rw)
}

/// A unit of logic executed against the world once per tick.
///
/// `step` is the whole-step meaning of one execution; `run` realizes it. The
/// two proof obligations confine the step to the declared footprint: it
/// writes only inside the write-sets (`step_frame`), and what it writes
/// depends only on the read- and write-sets (`step_local`). A footprint that
/// the step does not honour is unprovable, not silently unsafe.
pub trait System: Sized {
    /// Component type ids the system reads.
    spec fn comp_reads(&self) -> Set<int>;

    /// Component type ids the system writes.
    spec fn comp_writes(&self) -> Set<int>;

    /// Resource type ids the system reads.
    spec fn res_reads(&self) -> Set<int>;

    /// Resource type ids the system writes.
    spec fn res_writes(&self) -> Set<int>;

    /// The whole-step meaning of one execution against the world model.
    spec fn step(&self, w: WorldView) -> WorldView;

    /// The step changes nothing outside the declared write-sets.
    proof fn step_frame(&self, w: WorldView)
        ensures
            sys_frame(w, self.step(w), self.comp_writes(), self.res_writes()),
    ;

    /// The step depends on nothing outside the declared read- and
    /// write-sets: on two worlds of one population agreeing there, what it
    /// writes agrees too.
    proof fn step_local(&self, w1: WorldView, w2: WorldView)
        requires
            same_shape(w1, w2),
            comps_agree_on(w1, w2, self.comp_reads().union(self.comp_writes())),
            res_agree_on(w1, w2, self.res_reads().union(self.res_writes())),
        ensures
            comps_agree_on(self.step(w1), self.step(w2), self.comp_writes()),
            res_agree_on(self.step(w1), self.step(w2), self.res_writes()),
    ;

    /// The declared footprint, as plain data for the scheduler.
    fn footprint(&self) -> (f: Footprint)
        ensures
            f@.comp_reads == self.comp_reads(),
            f@.comp_writes == self.comp_writes(),
            f@.res_reads == self.res_reads(),
            f@.res_writes == self.res_writes(),
    ;

    /// Executes one step against the world.
    fn run(&mut self, data: &mut WorldData)
        requires
            old(data).wf(),
        ensures
            final(data).wf(),
            final(data).spec_width() == old(data).spec_width(),
            final(data)@ == old(self).step(old(data)@),
    ;
}

/// A system's declared footprint, as one mathematical value.
pub open spec fn sys_footprint<S: System>(s: &S) -> FootprintView {
    FootprintView {
        comp_reads: s.comp_reads(),
        comp_writes: s.comp_writes(),
        res_reads: s.res_reads(),
        res_writes: s.res_writes(),
    }
}

/// Commutativity under disjoint footprints: for two systems whose declared
/// write-sets are disjoint from each other's read- and write-sets, running
/// them in either order produces the same final world state — which is why
/// the scheduler may run them concurrently within one wave.
pub proof fn lemma_disjoint_systems_commute<S1: System, S2: System>(s1: &S1, s2: &S2, w: WorldView)
    requires
        s1.comp_writes().disjoint(s2.comp_reads().union(s2.comp_writes())),
        s2.comp_writes().disjoint(s1.comp_reads().union(s1.comp_writes())),
        s1.res_writes().disjoint(s2.res_reads().union(s2.res_writes())),
        s2.res_writes().disjoint(s1.res_reads().union(s1.res_writes())),
    ensures
        s2.step(s1.step(w)) == s1.step(s2.step(w)),
{
    let a1 = s1.step(w);
    let a12 = s2.step(a1);
    let b2 = s2.step(w);
    let b21 = s1.step(b2);
    s1.step_frame(w);
    s2.step_frame(a1);
    s2.step_frame(w);
    s1.step_frame(b2);

    // s2's step left everything s1 looks at untouched, and the other way
    // round, so each step is computed from the same inputs on both sides.
    assert(comps_agree_on(w, b2, s1.comp_reads().union(s1.comp_writes()))) by {
        assert forall|e: int, c: int|
            0 <= e < w.entities.len() && 0 <= c < w.entities[e].slots.len() && s1.comp_reads()
                .union(s1.comp_writes()).contains(c) implies (#[trigger] w.entities[e].slots[c])
            == b2.entities[e].slots[c] by {
            assert(!s2.comp_writes().contains(c));
        }
    }
    assert(res_agree_on(w, b2, s1.res_reads().union(s1.res_writes()))) by {
        assert forall|r: int|
            0 <= r < w.resources.len() && s1.res_reads().union(s1.res_writes()).contains(
                r,
            ) implies (#[trigger] w.resources[r]) == b2.resources[r] by {
            assert(!s2.res_writes().contains(r));
        }
    }
    s1.step_local(w, b2);

    assert(comps_agree_on(w, a1, s2.comp_reads().union(s2.comp_writes()))) by {
        assert forall|e: int, c: int|
            0 <= e < w.entities.len() && 0 <= c < w.entities[e].slots.len() && s2.comp_reads()
                .union(s2.comp_writes()).contains(c) implies (#[trigger] w.entities[e].slots[c])
            == a1.entities[e].slots[c] by {
            assert(!s1.comp_writes().contains(c));
        }
    }
    assert(res_agree_on(w, a1, s2.res_reads().union(s2.res_writes()))) by {
        assert forall|r: int|
            0 <= r < w.resources.len() && s2.res_reads().union(s2.res_writes()).contains(
                r,
            ) implies (#[trigger] w.resources[r]) == a1.resources[r] by {
            assert(!s1.res_writes().contains(r));
        }
    }
    s2.step_local(w, a1);

    // Pointwise, each slot of the two final worlds is decided the same way:
    // by s1 if its write-set covers it, by s2 if its write-set does, and by
    // the initial world otherwise.
    assert forall|e: int|
        0 <= e < a12.entities.len() implies (#[trigger] a12.entities[e]) == b21.entities[e] by {
        assert(w.entities[e].id == a1.entities[e].id && a1.entities[e].id == a12.entities[e].id);
        assert(w.entities[e].id == b2.entities[e].id && b2.entities[e].id == b21.entities[e].id);
        assert(w.entities[e].slots.len() == a1.entities[e].slots.len());
        assert(a1.entities[e].slots.len() == a12.entities[e].slots.len());
        assert(w.entities[e].slots.len() == b2.entities[e].slots.len());
        assert(b2.entities[e].slots.len() == b21.entities[e].slots.len());
        assert(a12.entities[e].id == b21.entities[e].id);
        assert(a12.entities[e].slots.len() == b21.entities[e].slots.len());
        assert forall|c: int|
            0 <= c < a12.entities[e].slots.len() implies (#[trigger] a12.entities[e].slots[c])
            == b21.entities[e].slots[c] by {
            if s1.comp_writes().contains(c) {
                assert(!s2.comp_writes().contains(c));
                assert(a12.entities[e].slots[c] == a1.entities[e].slots[c]);
                assert(b21.entities[e].slots[c] == a1.entities[e].slots[c]);
            } else if s2.comp_writes().contains(c) {
                assert(!s1.comp_writes().contains(c));
                assert(a12.entities[e].slots[c] == b2.entities[e].slots[c]);
                assert(b21.entities[e].slots[c] == b2.entities[e].slots[c]);
            } else {
                assert(a1.entities[e].slots[c] == w.entities[e].slots[c]);
                assert(a12.entities[e].slots[c] == a1.entities[e].slots[c]);
                assert(b2.entities[e].slots[c] == w.entities[e].slots[c]);
                assert(b21.entities[e].slots[c] == b2.entities[e].slots[c]);
            }
        }
        assert(a12.entities[e].slots =~= b21.entities[e].slots);
        assert(a12.entities[e] =~= b21.entities[e]);
    }
    assert forall|r: int|
        0 <= r < a12.resources.len() implies (#[trigger] a12.resources[r]) == b21.resources[r] by {
        if s1.res_writes().contains(r) {
            assert(!s2.res_writes().contains(r));
            assert(a12.resources[r] == a1.resources[r]);
            assert(b21.resources[r] == a1.resources[r]);
        } else if s2.res_writes().contains(r) {
            assert(!s1.res_writes().contains(r));
            assert(a12.resources[r] == b2.resources[r]);
            assert(b21.resources[r] == b2.resources[r]);
        } else {
            assert(a1.resources[r] == w.resources[r]);
            assert(a12.resources[r] == a1.resources[r]);
            assert(b2.resources[r] == w.resources[r]);
            assert(b21.resources[r] == b2.resources[r]);
        }
    }
    assert(a12.entities =~= b21.entities);
    assert(a12.resources =~= b21.resources);
    assert(a12 =~= b21);
}

} // verus!
