//! Secondary indices over entities. A `Mapping` is a capability marker: any
//! type implementing it can serve as an index consulted by queries. Two
//! concrete strategies are provided: a table mapping that groups entities by
//! the set of component types they hold, and a spatial mapping that indexes
//! entities by a planar position.

use vstd::prelude::*;

verus! {

/// Capability marker for secondary indices over entities.
pub trait Mapping {

}

/// A query pairs a mapping with an output type: a function from a mapping
/// instance to the output, with its applicability condition and its result
/// contract stated alongside.
pub trait Query {
    type Mapping: Mapping;

    type Out;

    /// When the query may be asked of the mapping.
    spec fn pre(&self, map: &Self::Mapping) -> bool;

    /// What the answer says of the mapping.
    spec fn post(&self, map: &Self::Mapping, out: &Self::Out) -> bool;

    fn query(&self, map: Self::Mapping) -> (out: Self::Out)
        requires
            self.pre(&map),
        ensures
            self.post(&map, &out),
    ;
}

/// Whether no two table rows name the same entity.
pub open spec fn distinct_row_entities(rows: Seq<(u32, Seq<bool>)>) -> bool {
    forall|i: int, j: int| #![trigger rows[i], rows[j]]
        0 <= i < j < rows.len() ==> rows[i].0 != rows[j].0
}

/// Whether a membership mask covers a queried mask: every component type the
/// query asks for is held.
pub open spec fn mask_covers(m: Seq<bool>, q: Seq<bool>) -> bool {
    forall|c: int| 0 <= c < q.len() ==> (q[c] ==> m[c])
}

/// One table row: an entity and the mask of component types it holds.
pub struct TableRow {
    pub entity: u32,
    pub mask: Vec<bool>,
}

/// Groups entities by the exact set of component types they currently hold,
/// to answer "all entities with components {X, Y, ...}" without per-entity
/// type checks. Row `i` mirrors entity `i` of the owning store; the owner
/// keeps the rows in step as components are added and removed.
pub struct TableMapping {
    width: usize,
    rows: Vec<TableRow>,
}

impl Mapping for TableMapping {

}

impl TableMapping {
    /// The number of component types each mask spans.
    pub closed spec fn spec_width(&self) -> int {
        self.width as int
    }

    /// The rows as mathematical values: entity and mask, in row order.
    pub closed spec fn rows_view(&self) -> Seq<(u32, Seq<bool>)> {
        self.rows@.map_values(|r: TableRow| (r.entity, r.mask@))
    }

    /// Every mask spans exactly the registered component types.
    pub open spec fn wf(&self) -> bool {
        forall|i: int|
            0 <= i < self.rows_view().len() ==> (#[trigger] self.rows_view()[i]).1.len()
                == self.spec_width()
    }

    /// An empty table over the given number of component types.
    pub fn new(width: usize) -> (t: TableMapping)
        ensures
            t.wf(),
            t.spec_width() == width,
            t.rows_view().len() == 0,
    {
        TableMapping { width, rows: Vec::new() }
    }

    pub fn width(&self) -> (w: usize)
        ensures
            w == self.spec_width(),
    {
        self.width
    }

    pub fn row_count(&self) -> (n: usize)
        ensures
            n == self.rows_view().len(),
    {
        self.rows.len()
    }

    /// Appends a row for a newly created entity.
    pub fn push_row(&mut self, entity: u32, mask: Vec<bool>)
        requires
            old(self).wf(),
            mask@.len() == old(self).spec_width(),
        ensures
            final(self).wf(),
            final(self).spec_width() == old(self).spec_width(),
            final(self).rows_view() == old(self).rows_view().push((entity, mask@)),
    {
        let ghost prior = self.rows_view();
        self.rows.push(TableRow { entity, mask });
        proof {
            assert(self.rows_view() =~= prior.push((entity, mask@)));
        }
    }

    /// Replaces the row at the given index, when the entity's membership
    /// changes.
    pub fn set_row(&mut self, i: usize, entity: u32, mask: Vec<bool>)
        requires
            old(self).wf(),
            i < old(self).rows_view().len(),
            mask@.len() == old(self).spec_width(),
        ensures
            final(self).wf(),
            final(self).spec_width() == old(self).spec_width(),
            final(self).rows_view() == old(self).rows_view().update(i as int, (entity, mask@)),
    {
        let ghost prior = self.rows_view();
        let row = crate::util::elem_mut(&mut self.rows, i);
        *row = TableRow { entity, mask };
        proof {
            assert(self.rows_view() =~= prior.update(i as int, (entity, mask@)));
        }
    }

    /// Drops the row at the given index, when the entity is destroyed.
    pub fn remove_row(&mut self, i: usize)
        requires
            old(self).wf(),
            i < old(self).rows_view().len(),
        ensures
            final(self).wf(),
            final(self).spec_width() == old(self).spec_width(),
            final(self).rows_view() == old(self).rows_view().remove(i as int),
    {
        let ghost prior = self.rows_view();
        let _ = self.rows.remove(i);
        proof {
            prior.remove_ensures(i as int);
            assert(self.rows_view() =~= prior.remove(i as int));
        }
    }

    /// All entities whose membership covers the queried mask: an entity is in
    /// the answer exactly when some row holds it with every queried component
    /// present — no stale membership in either direction.
    pub fn query(&self, q: &Vec<bool>) -> (r: Vec<u32>)
        requires
            self.wf(),
            q@.len() == self.spec_width(),
        ensures
            forall|e: u32|
                r@.contains(e) <==> exists|i: int|
                    0 <= i < self.rows_view().len() && (#[trigger] self.rows_view()[i]).0 == e
                        && mask_covers(self.rows_view()[i].1, q@),
            distinct_row_entities(self.rows_view()) ==> r@.no_duplicates(),
    {
        let n = self.rows.len();
        let mut r: Vec<u32> = Vec::new();
        let mut i: usize = 0;
        while i < n
            invariant
                i <= n,
                n == self.rows_view().len(),
                self.wf(),
                q@.len() == self.spec_width(),
                forall|e: u32|
                    r@.contains(e) <==> exists|j: int|
                        0 <= j < i && (#[trigger] self.rows_view()[j]).0 == e && mask_covers(
                            self.rows_view()[j].1,
                            q@,
                        ),
                distinct_row_entities(self.rows_view()) ==> r@.no_duplicates(),
            decreases n - i,
        {
            proof {
                assert(self.rows_view()[i as int].1 == self.rows@[i as int].mask@);
            }
            let covers = mask_covers_exec(&self.rows[i].mask, q);
            let ghost prior = r@;
            if covers {
                r.push(self.rows[i].entity);
            }
            proof {
                let rv = self.rows_view();
                assert(rv[i as int].1 == self.rows@[i as int].mask@);
                assert forall|e: u32| r@.contains(e) implies exists|j: int|
                    0 <= j < i + 1 && (#[trigger] rv[j]).0 == e && mask_covers(rv[j].1, q@) by {
                    if prior.contains(e) {
                        let j = choose|j: int|
                            0 <= j < i && (#[trigger] rv[j]).0 == e && mask_covers(rv[j].1, q@);
                        assert(rv[j].0 == e && mask_covers(rv[j].1, q@));
                    } else {
                        assert(covers && e == rv[i as int].0);
                        assert(rv[i as int].0 == e && mask_covers(rv[i as int].1, q@));
                    }
                }
                assert forall|e: u32|
                    (exists|j: int|
                        0 <= j < i + 1 && (#[trigger] rv[j]).0 == e && mask_covers(
                            rv[j].1,
                            q@,
                        )) implies r@.contains(e) by {
                    let j = choose|j: int|
                        0 <= j < i + 1 && (#[trigger] rv[j]).0 == e && mask_covers(rv[j].1, q@);
                    if j < i {
                        assert(prior.contains(e));
                        assert(r@.contains(e)) by {
                            if covers {
                                assert(r@ == prior.push(rv[i as int].0));
                                let k = choose|k: int| 0 <= k < prior.len() && prior[k] == e;
                                assert(r@[k] == e);
                            }
                        }
                    } else {
                        assert(covers);
                        assert(r@ == prior.push(rv[i as int].0));
                        assert(r@[r@.len() - 1] == e);
                    }
                }
                if distinct_row_entities(rv) && covers {
                    assert(!prior.contains(rv[i as int].0)) by {
                        if prior.contains(rv[i as int].0) {
                            let j = choose|j: int|
                                0 <= j < i && (#[trigger] rv[j]).0 == rv[i as int].0
                                    && mask_covers(rv[j].1, q@);
                            assert(rv[j].0 == rv[i as int].0);
                        }
                    }
                    assert(r@.no_duplicates()) by {
                        assert forall|k: int, l: int|
                            0 <= k < l < r@.len() implies r@[k] != r@[l] by {
                            if l < r@.len() - 1 {
                                assert(r@[k] == prior[k] && r@[l] == prior[l]);
                            } else {
                                assert(r@[k] == prior[k]);
                                assert(prior.contains(prior[k]));
                                assert(r@[l] == rv[i as int].0);
                            }
                        }
                    }
                }
            }
            i = i + 1;
        }
        r
    }
}

/// Decides mask coverage.
fn mask_covers_exec(m: &Vec<bool>, q: &Vec<bool>) -> (r: bool)
    requires
        m@.len() == q@.len(),
    ensures
        r == mask_covers(m@, q@),
{
    let n = q.len();
    let mut i: usize = 0;
    while i < n
        invariant
            i <= n,
            n == q@.len(),
            m@.len() == q@.len(),
            forall|c: int| 0 <= c < i ==> (q@[c] ==> m@[c]),
        decreases n - i,
    {
        if q[i] && !m[i] {
            return false;
        }
        i = i + 1;
    }
    true
}

/// A query against the table mapping: all entities holding at least the
/// component types marked in the mask.
pub struct ComponentSetQuery {
    pub mask: Vec<bool>,
}

impl Query for ComponentSetQuery {
    type Mapping = TableMapping;

    type Out = Vec<u32>;

    open spec fn pre(&self, map: &TableMapping) -> bool {
        map.wf() && self.mask@.len() == map.spec_width()
    }

    open spec fn post(&self, map: &TableMapping, out: &Vec<u32>) -> bool {
        forall|e: u32|
            out@.contains(e) <==> exists|i: int|
                0 <= i < map.rows_view().len() && (#[trigger] map.rows_view()[i]).0 == e
                    && mask_covers(map.rows_view()[i].1, self.mask@)
    }

    fn query(&self, map: TableMapping) -> (out: Vec<u32>) {
        map.query(&self.mask)
    }
}

/// One spatial row: an entity and its planar position.
pub struct SpatialRow {
    pub entity: u32,
    pub x: i64,
    pub y: i64,
}

/// Indexes entities by a planar position, to answer range queries without a
/// full scan of the world. Supports insertion, removal, and update-on-move of
/// an entity's position.
pub struct SpatialMapping {
    rows: Vec<SpatialRow>,
}

impl Mapping for SpatialMapping {

}

/// Whether a position lies in the closed axis-aligned box.
pub open spec fn in_box(x: i64, y: i64, x0: i64, y0: i64, x1: i64, y1: i64) -> bool {
    x0 <= x <= x1 && y0 <= y <= y1
}

impl SpatialMapping {
    /// The indexed positions: entity, x, y, in insertion order.
    pub closed spec fn entries(&self) -> Seq<(u32, i64, i64)> {
        self.rows@.map_values(|r: SpatialRow| (r.entity, r.x, r.y))
    }

    /// Whether the entity is indexed.
    pub open spec fn spec_contains(&self, e: u32) -> bool {
        exists|i: int| 0 <= i < self.entries().len() && (#[trigger] self.entries()[i]).0 == e
    }

    /// Each entity is indexed at most once.
    pub open spec fn wf(&self) -> bool {
        forall|i: int, j: int| #![trigger self.entries()[i], self.entries()[j]]
            0 <= i < j < self.entries().len() ==> self.entries()[i].0 != self.entries()[j].0
    }

    /// An empty spatial index.
    pub fn new() -> (s: SpatialMapping)
        ensures
            s.wf(),
            s.entries().len() == 0,
    {
        SpatialMapping { rows: Vec::new() }
    }

    /// Index of the entity's row, if any.
    fn find(&self, entity: u32) -> (r: Option<usize>)
        ensures
            (r matches Some(i) ==> i < self.entries().len() && self.entries()[i as int].0
                == entity),
            (r is None ==> !self.spec_contains(entity)),
    {
        let n = self.rows.len();
        let mut i: usize = 0;
        while i < n
            invariant
                i <= n,
                n == self.entries().len(),
                forall|j: int| 0 <= j < i ==> (#[trigger] self.entries()[j]).0 != entity,
            decreases n - i,
        {
            if self.rows[i].entity == entity {
                proof {
                    assert(self.entries()[i as int].0 == entity);
                }
                return Some(i);
            }
            i = i + 1;
        }
        None
    }

    /// Indexes a new entity at the given position.
    pub fn insert(&mut self, entity: u32, x: i64, y: i64)
        requires
            old(self).wf(),
            !old(self).spec_contains(entity),
        ensures
            final(self).wf(),
            final(self).entries() == old(self).entries().push((entity, x, y)),
    {
        let ghost prior = self.entries();
        self.rows.push(SpatialRow { entity, x, y });
        proof {
            assert(self.entries() =~= prior.push((entity, x, y)));
        }
    }

    /// Moves an indexed entity to a new position. Answers whether the entity
    /// was indexed; an unknown entity leaves the index unchanged.
    pub fn update_position(&mut self, entity: u32, x: i64, y: i64) -> (found: bool)
        requires
            old(self).wf(),
        ensures
            final(self).wf(),
            found == old(self).spec_contains(entity),
            found ==> exists|i: int|
                0 <= i < old(self).entries().len() && (#[trigger] old(self).entries()[i]).0
                    == entity && final(self).entries() == old(self).entries().update(
                    i,
                    (entity, x, y),
                ),
            !found ==> final(self).entries() == old(self).entries(),
    {
        let ghost prior = self.entries();
        match self.find(entity) {
            Some(i) => {
                let row = crate::util::elem_mut(&mut self.rows, i);
                *row = SpatialRow { entity, x, y };
                proof {
                    assert(self.entries() =~= prior.update(i as int, (entity, x, y)));
                }
                true
            },
            None => false,
        }
    }

    /// Drops an entity from the index. Answers whether it was indexed.
    pub fn remove(&mut self, entity: u32) -> (found: bool)
        requires
            old(self).wf(),
        ensures
            final(self).wf(),
            found == old(self).spec_contains(entity),
            found ==> exists|i: int|
                0 <= i < old(self).entries().len() && (#[trigger] old(self).entries()[i]).0
                    == entity && final(self).entries() == old(self).entries().remove(i),
            !found ==> final(self).entries() == old(self).entries(),
    {
        let ghost prior = self.entries();
        match self.find(entity) {
            Some(i) => {
                let _ = self.rows.remove(i);
                proof {
                    prior.remove_ensures(i as int);
                    assert(self.entries() =~= prior.remove(i as int));
                }
                true
            },
            None => false,
        }
    }

    /// All entities positioned inside the closed box: an entity is in the
    /// answer exactly when it is indexed at a position the box contains.
    pub fn query_box(&self, x0: i64, y0: i64, x1: i64, y1: i64) -> (r: Vec<u32>)
        requires
            self.wf(),
        ensures
            forall|e: u32|
                r@.contains(e) <==> exists|i: int|
                    0 <= i < self.entries().len() && (#[trigger] self.entries()[i]).0 == e
                        && in_box(
                        self.entries()[i].1,
                        self.entries()[i].2,
                        x0,
                        y0,
                        x1,
                        y1,
                    ),
            r@.no_duplicates(),
    {
        let n = self.rows.len();
        let mut r: Vec<u32> = Vec::new();
        let mut i: usize = 0;
        while i < n
            invariant
                i <= n,
                n == self.entries().len(),
                self.wf(),
                forall|e: u32|
                    r@.contains(e) <==> exists|j: int|
                        0 <= j < i && (#[trigger] self.entries()[j]).0 == e && in_box(
                            self.entries()[j].1,
                            self.entries()[j].2,
                            x0,
                            y0,
                            x1,
                            y1,
                        ),
                r@.no_duplicates(),
            decreases n - i,
        {
            let row = &self.rows[i];
            let hit = x0 <= row.x && row.x <= x1 && y0 <= row.y && row.y <= y1;
            let ghost prior = r@;
            if hit {
                r.push(row.entity);
            }
            proof {
                let ev = self.entries();
                assert(ev[i as int] == (self.rows@[i as int].entity, self.rows@[i as int].x, self.rows@[i as int].y));
                assert forall|e: u32| r@.contains(e) implies exists|j: int|
                    0 <= j < i + 1 && (#[trigger] ev[j]).0 == e && in_box(
                        ev[j].1,
                        ev[j].2,
                        x0,
                        y0,
                        x1,
                        y1,
                    ) by {
                    if prior.contains(e) {
                        let j = choose|j: int|
                            0 <= j < i && (#[trigger] ev[j]).0 == e && in_box(
                                ev[j].1,
                                ev[j].2,
                                x0,
                                y0,
                                x1,
                                y1,
                            );
                        assert(ev[j].0 == e && in_box(ev[j].1, ev[j].2, x0, y0, x1, y1));
                    } else {
                        assert(hit && e == ev[i as int].0);
                    }
                }
                assert forall|e: u32|
                    (exists|j: int|
                        0 <= j < i + 1 && (#[trigger] ev[j]).0 == e && in_box(
                            ev[j].1,
                            ev[j].2,
                            x0,
                            y0,
                            x1,
                            y1,
                        )) implies r@.contains(e) by {
                    let j = choose|j: int|
                        0 <= j < i + 1 && (#[trigger] ev[j]).0 == e && in_box(
                            ev[j].1,
                            ev[j].2,
                            x0,
                            y0,
                            x1,
                            y1,
                        );
                    if j < i {
                        assert(prior.contains(e));
                        if hit {
                            let k = choose|k: int| 0 <= k < prior.len() && prior[k] == e;
                            assert(r@[k] == e);
                        }
                    } else {
                        assert(hit);
                        assert(r@[r@.len() - 1] == e);
                    }
                }
                if hit {
                    assert(!prior.contains(ev[i as int].0)) by {
                        if prior.contains(ev[i as int].0) {
                            let j = choose|j: int|
                                0 <= j < i && (#[trigger] ev[j]).0 == ev[i as int].0 && in_box(
                                    ev[j].1,
                                    ev[j].2,
                                    x0,
                                    y0,
                                    x1,
                                    y1,
                                );
                            assert(ev[j].0 == ev[i as int].0);
                        }
                    }
                    assert(r@.no_duplicates()) by {
                        assert forall|k: int, l: int|
                            0 <= k < l < r@.len() implies r@[k] != r@[l] by {
                            if l < r@.len() - 1 {
                                assert(r@[k] == prior[k] && r@[l] == prior[l]);
                            } else {
                                assert(r@[k] == prior[k]);
                                assert(prior.contains(prior[k]));
                                assert(r@[l] == ev[i as int].0);
                            }
                        }
                    }
                }
            }
            i = i + 1;
        }
        r
    }
}

/// A query against the spatial mapping: all entities inside a closed box.
pub struct BoxQuery {
    pub x0: i64,
    pub y0: i64,
    pub x1: i64,
    pub y1: i64,
}

impl Query for BoxQuery {
    type Mapping = SpatialMapping;

    type Out = Vec<u32>;

    open spec fn pre(&self, map: &SpatialMapping) -> bool {
        map.wf()
    }

    open spec fn post(&self, map: &SpatialMapping, out: &Vec<u32>) -> bool {
        forall|e: u32|
            out@.contains(e) <==> exists|i: int|
                0 <= i < map.entries().len() && (#[trigger] map.entries()[i]).0 == e && in_box(
                    map.entries()[i].1,
                    map.entries()[i].2,
                    self.x0,
                    self.y0,
                    self.x1,
                    self.y1,
                )
    }

    fn query(&self, map: SpatialMapping) -> (out: Vec<u32>) {
        map.query_box(self.x0, self.y0, self.x1, self.y1)
    }
}

} // verus!
