//! The scheduler's conflict analysis: two systems conflict when one's
//! write-set meets the other's reads or writes. Each tick, the systems are
//! partitioned into waves with no internal conflicts; systems of one wave may
//! run concurrently, while conflicting systems land in different waves and so
//! are strictly ordered.

use crate::system::{
    id_set, lemma_disjoint_systems_commute, sys_footprint, Footprint, FootprintView, System,
};
use crate::world::WorldView;
use vstd::prelude::*;
use vstd::set_lib::{lemma_int_range, lemma_len_subset, set_int_range};

verus! {

/// Two footprints conflict when either write-set intersects the other's
/// read-set or write-set. Anything weaker than full exclusivity on
/// overlapping writes is unsafe.
pub open spec fn fp_conflict(a: FootprintView, b: FootprintView) -> bool {
    ||| !a.comp_writes.disjoint(b.comp_reads)
    ||| !a.comp_writes.disjoint(b.comp_writes)
    ||| !b.comp_writes.disjoint(a.comp_reads)
    ||| !a.res_writes.disjoint(b.res_reads)
    ||| !a.res_writes.disjoint(b.res_writes)
    ||| !b.res_writes.disjoint(a.res_reads)
}

/// The footprints of a system list, as mathematical values.
pub open spec fn fps_of(fps: Seq<Footprint>) -> Seq<FootprintView> {
    fps.map_values(|f: Footprint| f@)
}

/// The waves of a schedule, as mathematical values.
pub open spec fn waves_of(ws: Seq<Vec<usize>>) -> Seq<Seq<usize>> {
    ws.map_values(|v: Vec<usize>| v@)
}

/// No two distinct members of the wave conflict: the wave may run
/// concurrently.
pub open spec fn wave_ok(w: Seq<usize>, fps: Seq<FootprintView>) -> bool {
    forall|i: int, j: int| #![trigger w[i], w[j]]
        0 <= i < w.len() && 0 <= j < w.len() && i != j ==> !fp_conflict(
            fps[w[i] as int],
            fps[w[j] as int],
        )
}

/// The waves in execution order, flattened.
pub open spec fn flat_of(ws: Seq<Seq<usize>>) -> Seq<usize>
    decreases ws.len(),
{
    if ws.len() == 0 {
        Seq::empty()
    } else {
        ws[0] + flat_of(ws.drop_first())
    }
}

/// What the scheduler promises: every wave is internally conflict-free — so
/// any two systems with conflicting footprints land in different waves and
/// run strictly ordered — and the flattened schedule names every system
/// exactly once.
pub open spec fn valid_schedule(ws: Seq<Seq<usize>>, fps: Seq<FootprintView>) -> bool {
    &&& forall|k: int| 0 <= k < ws.len() ==> wave_ok(#[trigger] ws[k], fps)
    &&& flat_of(ws).no_duplicates()
    &&& forall|i: int| 0 <= i < flat_of(ws).len() ==> (#[trigger] flat_of(ws)[i]) < fps.len()
    &&& forall|s: int| 0 <= s < fps.len() ==> #[trigger] flat_of(ws).contains(s as usize)
}

/// Appending a wave appends its members to the flattened schedule.
pub proof fn lemma_flat_push(ws: Seq<Seq<usize>>, w: Seq<usize>)
    ensures
        flat_of(ws.push(w)) == flat_of(ws) + w,
    decreases ws.len(),
{
    if ws.len() == 0 {
        let tail = ws.push(w).drop_first();
        assert(tail =~= Seq::<Seq<usize>>::empty());
        assert(flat_of(tail) == Seq::<usize>::empty());
        assert(flat_of(ws.push(w)) == ws.push(w)[0] + flat_of(tail));
        assert(flat_of(ws) == Seq::<usize>::empty());
        assert(flat_of(ws.push(w)) =~= flat_of(ws) + w);
    } else {
        assert(ws.push(w).drop_first() =~= ws.drop_first().push(w));
        lemma_flat_push(ws.drop_first(), w);
        assert(flat_of(ws.push(w)) == ws[0] + (flat_of(ws.drop_first()) + w));
        assert(ws[0] + (flat_of(ws.drop_first()) + w) =~= (ws[0] + flat_of(ws.drop_first())) + w);
    }
}

/// Whether the list names the id.
fn contains_id(v: &Vec<usize>, x: usize) -> (r: bool)
    ensures
        r == v@.contains(x),
{
    let n = v.len();
    let mut i: usize = 0;
    while i < n
        invariant
            i <= n,
            n == v@.len(),
            forall|k: int| 0 <= k < i ==> v@[k] != x,
        decreases n - i,
    {
        if v[i] == x {
            return true;
        }
        i = i + 1;
    }
    false
}

/// Whether two id lists share an id.
fn intersects(a: &Vec<usize>, b: &Vec<usize>) -> (r: bool)
    ensures
        r == !id_set(a@).disjoint(id_set(b@)),
{
    let n = a.len();
    let mut i: usize = 0;
    while i < n
        invariant
            i <= n,
            n == a@.len(),
            forall|k: int| 0 <= k < i ==> !b@.contains(#[trigger] a@[k]),
        decreases n - i,
    {
        if contains_id(b, a[i]) {
            proof {
                let c = a@[i as int] as int;
                assert(id_set(a@).contains(c));
                assert(id_set(b@).contains(c)) by {
                    let m = choose|m: int| 0 <= m < b@.len() && b@[m] == a@[i as int];
                    assert(b@[m] as int == c);
                }
            }
            return true;
        }
        i = i + 1;
    }
    proof {
        assert forall|c: int| !(id_set(a@).contains(c) && id_set(b@).contains(c)) by {
            if id_set(a@).contains(c) && id_set(b@).contains(c) {
                let k = choose|k: int| 0 <= k < a@.len() && (#[trigger] a@[k]) as int == c;
                let m = choose|m: int| 0 <= m < b@.len() && (#[trigger] b@[m]) as int == c;
                assert(b@[m] == a@[k]);
                assert(b@.contains(a@[k]));
            }
        }
    }
    false
}

/// Decides whether two declared footprints conflict.
pub fn footprints_conflict(a: &Footprint, b: &Footprint) -> (r: bool)
    ensures
        r == fp_conflict(a@, b@),
{
    intersects(&a.comp_writes, &b.comp_reads) || intersects(&a.comp_writes, &b.comp_writes)
        || intersects(&b.comp_writes, &a.comp_reads) || intersects(&a.res_writes, &b.res_reads)
        || intersects(&a.res_writes, &b.res_writes) || intersects(&b.res_writes, &a.res_reads)
}

/// Whether system `s` conflicts with some member of the wave.
fn wave_conflicts(wave: &Vec<usize>, footprints: &Vec<Footprint>, s: usize) -> (r: bool)
    requires
        s < footprints@.len(),
        forall|m: int| 0 <= m < wave@.len() ==> (#[trigger] wave@[m]) < footprints@.len(),
    ensures
        r == exists|m: int|
            0 <= m < wave@.len() && fp_conflict(
                fps_of(footprints@)[#[trigger] wave@[m] as int],
                fps_of(footprints@)[s as int],
            ),
{
    let n = wave.len();
    let mut i: usize = 0;
    while i < n
        invariant
            i <= n,
            n == wave@.len(),
            s < footprints@.len(),
            forall|m: int| 0 <= m < wave@.len() ==> (#[trigger] wave@[m]) < footprints@.len(),
            forall|m: int|
                0 <= m < i ==> !fp_conflict(
                    fps_of(footprints@)[#[trigger] wave@[m] as int],
                    fps_of(footprints@)[s as int],
                ),
        decreases n - i,
    {
        let member = wave[i];
        if footprints_conflict(&footprints[member], &footprints[s]) {
            proof {
                assert(fps_of(footprints@)[wave@[i as int] as int] == footprints@[wave@[i as int] as int]@);
            }
            return true;
        }
        proof {
            assert(fps_of(footprints@)[wave@[i as int] as int] == footprints@[wave@[i as int] as int]@);
        }
        i = i + 1;
    }
    false
}

/// The set of systems not yet placed into a wave.
spec fn unplaced_set(placed: Seq<bool>) -> Set<int> {
    Set::new(|j: int| 0 <= j < placed.len() && !placed[j])
}

proof fn lemma_unplaced_finite(placed: Seq<bool>)
    ensures
        unplaced_set(placed).finite(),
        unplaced_set(placed).len() <= placed.len(),
{
    lemma_int_range(0, placed.len() as int);
    assert(unplaced_set(placed).subset_of(set_int_range(0, placed.len() as int)));
    lemma_len_subset(unplaced_set(placed), set_int_range(0, placed.len() as int));
}

/// Partitions the systems into waves with no internal conflicts, greedily:
/// each wave takes every still-unplaced system compatible with the wave's
/// members so far. Every system lands in exactly one wave, and conflicting
/// systems never share a wave.
pub fn schedule(footprints: &Vec<Footprint>) -> (waves: Vec<Vec<usize>>)
    ensures
        valid_schedule(waves_of(waves@), fps_of(footprints@)),
{
    let n = footprints.len();
    let ghost fps = fps_of(footprints@);
    let mut placed: Vec<bool> = Vec::new();
    let mut i: usize = 0;
    while i < n
        invariant
            i <= n,
            placed@.len() == i,
            forall|j: int| 0 <= j < i ==> !placed@[j],
        decreases n - i,
    {
        placed.push(false);
        i = i + 1;
    }
    let mut waves: Vec<Vec<usize>> = Vec::new();
    let mut remaining: usize = n;
    proof {
        assert(unplaced_set(placed@) =~= set_int_range(0, n as int));
        lemma_int_range(0, n as int);
        assert(flat_of(waves_of(waves@)) =~= Seq::<usize>::empty());
    }
    while remaining > 0
        invariant
            n == footprints@.len(),
            fps == fps_of(footprints@),
            placed@.len() == n,
            remaining == unplaced_set(placed@).len(),
            flat_of(waves_of(waves@)).no_duplicates(),
            forall|i: int|
                0 <= i < flat_of(waves_of(waves@)).len() ==> (#[trigger] flat_of(
                    waves_of(waves@),
                )[i]) < n,
            forall|j: int|
                0 <= j < n ==> (placed@[j] <==> flat_of(waves_of(waves@)).contains(j as usize)),
            forall|k: int| 0 <= k < waves_of(waves@).len() ==> wave_ok(#[trigger] waves_of(waves@)[k], fps),
        decreases remaining,
    {
        let ghost flat_prior = flat_of(waves_of(waves@));
        let ghost remaining_entry = remaining as int;
        proof {
            assert(remaining_entry > 0);
        }
        let mut wave: Vec<usize> = Vec::new();
        let mut s: usize = 0;
        while s < n
            invariant
                s <= n,
                n == footprints@.len(),
                fps == fps_of(footprints@),
                placed@.len() == n,
                flat_of(waves_of(waves@)) == flat_prior,
                remaining == unplaced_set(placed@).len(),
                remaining + wave@.len() == remaining_entry,
                flat_prior.no_duplicates(),
                forall|i: int| 0 <= i < flat_prior.len() ==> (#[trigger] flat_prior[i]) < n,
                forall|j: int|
                    0 <= j < n ==> (placed@[j] <==> flat_prior.contains(j as usize)
                        || wave@.contains(j as usize)),
                forall|m: int| 0 <= m < wave@.len() ==> (#[trigger] wave@[m]) < n,
                forall|m: int| 0 <= m < wave@.len() ==> !flat_prior.contains(#[trigger] wave@[m]),
                wave@.no_duplicates(),
                wave_ok(wave@, fps),
                wave@.len() == 0 ==> (forall|j: int| 0 <= j < s ==> placed@[j]),
                forall|k: int|
                    0 <= k < waves_of(waves@).len() ==> wave_ok(#[trigger] waves_of(waves@)[k], fps),
            decreases n - s,
        {
            let is_placed = placed[s];
            if !is_placed {
                let conflict = wave_conflicts(&wave, footprints, s);
                if !conflict {
                    let ghost wave_prior = wave@;
                    let ghost placed_prior = placed@;
                    wave.push(s);
                    let slot = crate::util::elem_mut(&mut placed, s);
                    *slot = true;
                    proof {
                        assert(placed@ =~= placed_prior.update(s as int, true));
                        assert(unplaced_set(placed@) =~= unplaced_set(placed_prior).remove(
                            s as int,
                        ));
                        assert(unplaced_set(placed_prior).contains(s as int));
                        lemma_unplaced_finite(placed_prior);
                        assert(unplaced_set(placed@).len() == unplaced_set(placed_prior).len()
                            - 1);
                        assert forall|j: int|
                            0 <= j < n implies (placed@[j] <==> flat_prior.contains(j as usize)
                            || wave@.contains(j as usize)) by {
                            if j == s as int {
                                assert(wave@[wave@.len() - 1] == s);
                                assert(wave@.contains(s));
                            } else {
                                assert(placed@[j] == placed_prior[j]);
                                assert(wave@.contains(j as usize) == wave_prior.contains(
                                    j as usize,
                                )) by {
                                    if wave_prior.contains(j as usize) {
                                        let m = choose|m: int|
                                            0 <= m < wave_prior.len() && wave_prior[m]
                                                == j as usize;
                                        assert(wave@[m] == j as usize);
                                    } else if wave@.contains(j as usize) {
                                        let m = choose|m: int|
                                            0 <= m < wave@.len() && wave@[m] == j as usize;
                                        assert(m < wave_prior.len());
                                        assert(wave_prior[m] == j as usize);
                                    }
                                }
                            }
                        }
                        assert(wave@.no_duplicates()) by {
                            assert(!placed_prior[s as int]);
                            assert(!wave_prior.contains(s));
                        }
                        assert(wave_ok(wave@, fps)) by {
                            assert forall|i: int, j: int| #![trigger wave@[i], wave@[j]]
                                0 <= i < wave@.len() && 0 <= j < wave@.len() && i
                                != j implies !fp_conflict(
                                fps[wave@[i] as int],
                                fps[wave@[j] as int],
                            ) by {
                                if i < wave@.len() - 1 && j < wave@.len() - 1 {
                                    assert(wave@[i] == wave_prior[i]);
                                    assert(wave@[j] == wave_prior[j]);
                                } else if j == wave@.len() - 1 {
                                    assert(wave@[j] == s);
                                    assert(wave@[i] == wave_prior[i]);
                                    assert(!fp_conflict(fps[wave_prior[i] as int], fps[s as int]));
                                    lemma_conflict_symmetric(
                                        fps[wave_prior[i] as int],
                                        fps[s as int],
                                    );
                                } else {
                                    assert(wave@[i] == s);
                                    assert(wave@[j] == wave_prior[j]);
                                    assert(!fp_conflict(fps[wave_prior[j] as int], fps[s as int]));
                                    lemma_conflict_symmetric(
                                        fps[wave_prior[j] as int],
                                        fps[s as int],
                                    );
                                }
                            }
                        }
                    }
                    remaining = remaining - 1;
                }
            }
            s = s + 1;
        }
        proof {
            if wave@.len() == 0 {
                assert(s == n);
                assert forall|j: int| 0 <= j < n implies placed@[j] by {
                    assert(0 <= j < s);
                }
                assert(unplaced_set(placed@) =~= Set::<int>::empty());
                assert(unplaced_set(placed@).len() == 0);
                assert(remaining == 0);
                assert(remaining == remaining_entry);
                assert(false);
            }
            assert(wave@.len() > 0);
        }
        let ghost waves_prior = waves_of(waves@);
        let ghost wave_view = wave@;
        waves.push(wave);
        proof {
            assert(waves_of(waves@) =~= waves_prior.push(wave_view));
            lemma_flat_push(waves_prior, wave_view);
            let flat_new = flat_of(waves_of(waves@));
            assert(flat_new == flat_prior + wave_view);
            assert(flat_new.no_duplicates()) by {
                assert forall|i: int, j: int|
                    0 <= i < j < flat_new.len() implies flat_new[i] != flat_new[j] by {
                    if j < flat_prior.len() {
                        assert(flat_new[i] == flat_prior[i] && flat_new[j] == flat_prior[j]);
                    } else if i >= flat_prior.len() {
                        assert(flat_new[i] == wave_view[i - flat_prior.len()]);
                        assert(flat_new[j] == wave_view[j - flat_prior.len()]);
                    } else {
                        assert(flat_new[i] == flat_prior[i]);
                        assert(flat_new[j] == wave_view[j - flat_prior.len()]);
                        assert(!flat_prior.contains(wave_view[j - flat_prior.len()]));
                        assert(flat_prior.contains(flat_prior[i]));
                    }
                }
            }
            assert forall|j: int|
                0 <= j < n implies (placed@[j] <==> flat_new.contains(j as usize)) by {
                if flat_prior.contains(j as usize) {
                    let k = choose|k: int|
                        0 <= k < flat_prior.len() && flat_prior[k] == j as usize;
                    assert(flat_new[k] == j as usize);
                } else if wave_view.contains(j as usize) {
                    let m = choose|m: int| 0 <= m < wave_view.len() && wave_view[m] == j as usize;
                    assert(flat_new[flat_prior.len() + m] == j as usize);
                } else {
                    if flat_new.contains(j as usize) {
                        let k = choose|k: int|
                            0 <= k < flat_new.len() && flat_new[k] == j as usize;
                        if k < flat_prior.len() {
                            assert(flat_prior[k] == j as usize);
                            assert(flat_prior.contains(j as usize));
                        } else {
                            assert(wave_view[k - flat_prior.len()] == j as usize);
                            assert(wave_view.contains(j as usize));
                        }
                        assert(false);
                    }
                }
            }
            assert forall|k: int|
                0 <= k < waves_of(waves@).len() implies wave_ok(
                #[trigger] waves_of(waves@)[k],
                fps,
            ) by {
                if k < waves_prior.len() {
                    assert(waves_of(waves@)[k] == waves_prior[k]);
                } else {
                    assert(waves_of(waves@)[k] == wave_view);
                }
            }
        }
    }
    proof {
        lemma_unplaced_finite(placed@);
        unplaced_set(placed@).lemma_len0_is_empty();
        assert forall|s: int| 0 <= s < n implies #[trigger] flat_of(waves_of(waves@)).contains(
            s as usize,
        ) by {
            assert(!unplaced_set(placed@).contains(s));
            assert(placed@[s]);
        }
    }
    waves
}

/// Scheduler safety: two systems whose declared footprints do not conflict —
/// exactly the pairs the scheduler may place in one wave — have commuting
/// steps, so running such a wave concurrently, in whatever interleaving of
/// whole steps, produces the same final world state as running it
/// sequentially in either order.
pub proof fn lemma_wave_mates_commute<S1: System, S2: System>(s1: &S1, s2: &S2, w: WorldView)
    requires
        !fp_conflict(sys_footprint(s1), sys_footprint(s2)),
    ensures
        s2.step(s1.step(w)) == s1.step(s2.step(w)),
{
    assert forall|x: int|
        !(s1.comp_writes().contains(x) && s2.comp_reads().union(s2.comp_writes()).contains(
            x,
        )) by {}
    assert forall|x: int|
        !(s2.comp_writes().contains(x) && s1.comp_reads().union(s1.comp_writes()).contains(
            x,
        )) by {
        if s2.comp_writes().contains(x) && s1.comp_writes().contains(x) {
            assert(!(s1.comp_writes().contains(x) && s2.comp_writes().contains(x)));
        }
    }
    assert forall|x: int|
        !(s1.res_writes().contains(x) && s2.res_reads().union(s2.res_writes()).contains(x)) by {}
    assert forall|x: int|
        !(s2.res_writes().contains(x) && s1.res_reads().union(s1.res_writes()).contains(x)) by {
        if s2.res_writes().contains(x) && s1.res_writes().contains(x) {
            assert(!(s1.res_writes().contains(x) && s2.res_writes().contains(x)));
        }
    }
    lemma_disjoint_systems_commute(s1, s2, w);
}

/// Conflict is symmetric: the definition pairs each write-set against the
/// other footprint both ways.
pub proof fn lemma_conflict_symmetric(a: FootprintView, b: FootprintView)
    ensures
        fp_conflict(a, b) == fp_conflict(b, a),
{
    assert(a.comp_writes.disjoint(b.comp_writes) == b.comp_writes.disjoint(a.comp_writes)) by {
        if a.comp_writes.disjoint(b.comp_writes) {
            assert forall|x: int| !(b.comp_writes.contains(x) && a.comp_writes.contains(x)) by {}
        }
        if b.comp_writes.disjoint(a.comp_writes) {
            assert forall|x: int| !(a.comp_writes.contains(x) && b.comp_writes.contains(x)) by {}
        }
    }
    assert(a.res_writes.disjoint(b.res_writes) == b.res_writes.disjoint(a.res_writes)) by {
        if a.res_writes.disjoint(b.res_writes) {
            assert forall|x: int| !(b.res_writes.contains(x) && a.res_writes.contains(x)) by {}
        }
        if b.res_writes.disjoint(a.res_writes) {
            assert forall|x: int| !(a.res_writes.contains(x) && b.res_writes.contains(x)) by {}
        }
    }
}

} // verus!
