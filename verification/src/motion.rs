//! A concrete instantiation of the runtime: planar kinematics. `Position`
//! and `Velocity` are component types, `Gravity` a resource type, and
//! `MotionSystem` a system that adds each entity's velocity to its position
//! once per tick, writing positions and reading velocities.

use crate::component::{Component, Resource};
use crate::entity::{ComponentValue, EntityView};
use crate::system::{
    comps_agree_on, res_agree_on, same_shape, sys_frame, Footprint, System,
};
use crate::world::{WorldData, WorldView};
use vstd::prelude::*;

verus! {

/// A planar position.
#[derive(Clone, Copy, Debug, PartialEq, Eq, Structural)]
pub struct Position {
    pub x: i64,
    pub y: i64,
}

/// A planar velocity.
#[derive(Clone, Copy, Debug, PartialEq, Eq, Structural)]
pub struct Velocity {
    pub dx: i64,
    pub dy: i64,
}

/// A world-global gravity strength.
#[derive(Clone, Copy, Debug, PartialEq, Eq, Structural)]
pub struct Gravity {
    pub g: i64,
}

impl Component for Position {
    open spec fn spec_key() -> u64 {
        1
    }

    open spec fn encoding(&self) -> Seq<i64> {
        seq![self.x, self.y]
    }

    open spec fn decoding(d: Seq<i64>) -> Option<Position> {
        if d.len() == 2 {
            Some(Position { x: d[0], y: d[1] })
        } else {
            None
        }
    }

    fn type_key() -> u64 {
        1
    }

    fn encode(&self) -> (d: Vec<i64>)
        ensures
            d@ == self.encoding(),
    {
        let mut d: Vec<i64> = Vec::new();
        d.push(self.x);
        d.push(self.y);
        proof {
            assert(d@ =~= seq![self.x, self.y]);
        }
        d
    }

    fn decode(d: &Vec<i64>) -> (r: Option<Position>) {
        if d.len() == 2 {
            Some(Position { x: d[0], y: d[1] })
        } else {
            None
        }
    }

    proof fn lemma_round_trip(&self) {
    }
}

impl Component for Velocity {
    open spec fn spec_key() -> u64 {
        2
    }

    open spec fn encoding(&self) -> Seq<i64> {
        seq![self.dx, self.dy]
    }

    open spec fn decoding(d: Seq<i64>) -> Option<Velocity> {
        if d.len() == 2 {
            Some(Velocity { dx: d[0], dy: d[1] })
        } else {
            None
        }
    }

    fn type_key() -> u64 {
        2
    }

    fn encode(&self) -> (d: Vec<i64>)
        ensures
            d@ == self.encoding(),
    {
        let mut d: Vec<i64> = Vec::new();
        d.push(self.dx);
        d.push(self.dy);
        proof {
            assert(d@ =~= seq![self.dx, self.dy]);
        }
        d
    }

    fn decode(d: &Vec<i64>) -> (r: Option<Velocity>) {
        if d.len() == 2 {
            Some(Velocity { dx: d[0], dy: d[1] })
        } else {
            None
        }
    }

    proof fn lemma_round_trip(&self) {
    }
}

impl Resource for Gravity {
    open spec fn spec_key() -> u64 {
        3
    }

    open spec fn encoding(&self) -> Seq<i64> {
        seq![self.g]
    }

    open spec fn decoding(d: Seq<i64>) -> Option<Gravity> {
        if d.len() == 1 {
            Some(Gravity { g: d[0] })
        } else {
            None
        }
    }

    fn type_key() -> u64 {
        3
    }

    fn encode(&self) -> (d: Vec<i64>)
        ensures
            d@ == self.encoding(),
    {
        let mut d: Vec<i64> = Vec::new();
        d.push(self.g);
        proof {
            assert(d@ =~= seq![self.g]);
        }
        d
    }

    fn decode(d: &Vec<i64>) -> (r: Option<Gravity>) {
        if d.len() == 1 {
            Some(Gravity { g: d[0] })
        } else {
            None
        }
    }

    proof fn lemma_round_trip(&self) {
    }
}

/// One entity's step: where both a two-field position payload at `pos` and a
/// two-field velocity payload at `vel` are present, the velocity is added to
/// the position, wrapping on overflow; any other entity is left as it is.
pub open spec fn motion_entity(e: EntityView, pos: int, vel: int) -> EntityView {
    if 0 <= pos < e.slots.len() && 0 <= vel < e.slots.len() && pos != vel {
        match (e.slots[pos], e.slots[vel]) {
            (Some(p), Some(v)) => {
                if p.len() == 2 && v.len() == 2 {
                    EntityView {
                        id: e.id,
                        slots: e.slots.update(
                            pos,
                            Some(seq![p[0].wrapping_add(v[0]), p[1].wrapping_add(v[1])]),
                        ),
                    }
                } else {
                    e
                }
            },
            _ => e,
        }
    } else {
        e
    }
}

/// Adds each entity's velocity to its position once per tick. Its footprint
/// writes the position component and reads the velocity component.
pub struct MotionSystem {
    pub pos_id: usize,
    pub vel_id: usize,
}

impl System for MotionSystem {
    open spec fn comp_reads(&self) -> Set<int> {
        set![self.vel_id as int]
    }

    open spec fn comp_writes(&self) -> Set<int> {
        set![self.pos_id as int]
    }

    open spec fn res_reads(&self) -> Set<int> {
        Set::empty()
    }

    open spec fn res_writes(&self) -> Set<int> {
        Set::empty()
    }

    open spec fn step(&self, w: WorldView) -> WorldView {
        WorldView {
            entities: w.entities.map_values(
                |e: EntityView| motion_entity(e, self.pos_id as int, self.vel_id as int),
            ),
            resources: w.resources,
        }
    }

    proof fn step_frame(&self, w: WorldView) {
        let p = self.pos_id as int;
        let v = self.vel_id as int;
        let sw = self.step(w);
        assert forall|e: int| 0 <= e < w.entities.len() implies (#[trigger] sw.entities[e]).id
            == w.entities[e].id && sw.entities[e].slots.len() == w.entities[e].slots.len() by {
            assert(sw.entities[e] == motion_entity(w.entities[e], p, v));
        }
        assert(same_shape(w, sw));
        assert forall|e: int, c: int|
            0 <= e < w.entities.len() && 0 <= c < w.entities[e].slots.len()
                && !self.comp_writes().contains(c) implies (#[trigger] w.entities[e].slots[c])
            == sw.entities[e].slots[c] by {
            assert(sw.entities[e] == motion_entity(w.entities[e], p, v));
            assert(c != p);
        }
    }

    proof fn step_local(&self, w1: WorldView, w2: WorldView) {
        let p = self.pos_id as int;
        let v = self.vel_id as int;
        let s1 = self.step(w1);
        let s2 = self.step(w2);
        assert forall|e: int, c: int|
            0 <= e < s1.entities.len() && 0 <= c < s1.entities[e].slots.len()
                && self.comp_writes().contains(c) implies (#[trigger] s1.entities[e].slots[c])
            == s2.entities[e].slots[c] by {
            assert(c == p);
            assert(s1.entities[e] == motion_entity(w1.entities[e], p, v));
            assert(s2.entities[e] == motion_entity(w2.entities[e], p, v));
            assert(self.comp_reads().union(self.comp_writes()).contains(p));
            assert(self.comp_reads().union(self.comp_writes()).contains(v));
            assert(w1.entities[e].slots.len() == w2.entities[e].slots.len());
            if 0 <= p < w1.entities[e].slots.len() && 0 <= v < w1.entities[e].slots.len() {
                assert(w1.entities[e].slots[p] == w2.entities[e].slots[p]);
                assert(w1.entities[e].slots[v] == w2.entities[e].slots[v]);
            }
        }
    }

    fn footprint(&self) -> (f: Footprint) {
        let mut comp_reads: Vec<usize> = Vec::new();
        comp_reads.push(self.vel_id);
        let mut comp_writes: Vec<usize> = Vec::new();
        comp_writes.push(self.pos_id);
        let f = Footprint {
            comp_reads,
            comp_writes,
            res_reads: Vec::new(),
            res_writes: Vec::new(),
        };
        proof {
            crate::system::lemma_id_set_singleton(f.comp_reads@, self.vel_id);
            crate::system::lemma_id_set_singleton(f.comp_writes@, self.pos_id);
            crate::system::lemma_id_set_empty(f.res_reads@);
            crate::system::lemma_id_set_empty(f.res_writes@);
        }
        f
    }

    fn run(&mut self, data: &mut WorldData) {
        let ghost p = self.pos_id as int;
        let ghost v = self.vel_id as int;
        proof {
            data.lemma_wf_shape();
        }
        let width = data.width();
        let n = data.entity_count();
        if self.pos_id >= width || self.vel_id >= width || self.pos_id == self.vel_id {
            // Nothing to move: every entity's step is the identity.
            proof {
                let sw = self.step(data@);
                assert forall|e: int| 0 <= e < data@.entities.len() implies (#[trigger] sw.entities[e])
                    == data@.entities[e] by {
                    assert(sw.entities[e] == motion_entity(data@.entities[e], p, v));
                }
                assert(sw.entities =~= data@.entities);
                assert(sw =~= data@);
            }
            return ;
        }
        let mut e: usize = 0;
        while e < n
            invariant
                e <= n,
                data.wf(),
                data.spec_width() == old(data).spec_width(),
                n == data@.entities.len(),
                n == old(data)@.entities.len(),
                width == data.spec_width(),
                self.pos_id < width,
                self.vel_id < width,
                self.pos_id != self.vel_id,
                p == self.pos_id as int,
                v == self.vel_id as int,
                data@.resources == old(data)@.resources,
                forall|j: int|
                    0 <= j < e ==> (#[trigger] data@.entities[j]) == motion_entity(
                        old(data)@.entities[j],
                        p,
                        v,
                    ),
                forall|j: int|
                    e <= j < n ==> (#[trigger] data@.entities[j]) == old(data)@.entities[j],
            decreases n - e,
        {
            proof {
                data.lemma_wf_shape();
            }
            let mut dx: i64 = 0;
            let mut dy: i64 = 0;
            let mut has_vel = false;
            match data.get_component(e, self.vel_id) {
                Some(cv) => {
                    if cv.data.len() == 2 {
                        dx = cv.data[0];
                        dy = cv.data[1];
                        has_vel = true;
                    }
                },
                None => {},
            }
            let mut px: i64 = 0;
            let mut py: i64 = 0;
            let mut has_pos = false;
            match data.get_component(e, self.pos_id) {
                Some(cv) => {
                    if cv.data.len() == 2 {
                        px = cv.data[0];
                        py = cv.data[1];
                        has_pos = true;
                    }
                },
                None => {},
            }
            let ghost ent = data@.entities[e as int];
            if has_vel && has_pos {
                let nx = px.wrapping_add(dx);
                let ny = py.wrapping_add(dy);
                let mut payload: Vec<i64> = Vec::new();
                payload.push(nx);
                payload.push(ny);
                proof {
                    assert(payload@ =~= seq![nx, ny]);
                    assert(ent.slots[p] == Some(seq![px, py])) by {
                        assert(ent.slots[p].unwrap() =~= seq![px, py]);
                    }
                    assert(ent.slots[v] == Some(seq![dx, dy])) by {
                        assert(ent.slots[v].unwrap() =~= seq![dx, dy]);
                    }
                }
                data.set_component(
                    e,
                    Some(ComponentValue { type_id: self.pos_id, data: payload }),
                    self.pos_id,
                );
                proof {
                    assert(data@.entities[e as int] == motion_entity(ent, p, v)) by {
                        assert(motion_entity(ent, p, v) == EntityView {
                            id: ent.id,
                            slots: ent.slots.update(p, Some(seq![nx, ny])),
                        });
                    }
                    assert forall|j: int|
                        0 <= j < e implies (#[trigger] data@.entities[j]) == motion_entity(
                        old(data)@.entities[j],
                        p,
                        v,
                    ) by {}
                }
            } else {
                proof {
                    assert(data@.entities[e as int] == motion_entity(ent, p, v)) by {
                        if ent.slots[p] is Some && ent.slots[v] is Some {
                            assert(!(ent.slots[p].unwrap().len() == 2 && ent.slots[v].unwrap().len()
                                == 2));
                        }
                    }
                }
            }
            e = e + 1;
        }
        proof {
            let sw = old(self).step(old(data)@);
            assert(data@.entities =~= sw.entities);
            assert(data@ =~= sw);
        }
    }
}

} // verus!
