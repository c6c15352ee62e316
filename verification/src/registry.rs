//! The type registry: a two-phase, process-explicit table that assigns every
//! component type and every resource type a stable, densely-packed integer id.
//!
//! During the open registration phase, any number of types may register, in
//! any order. A single `finalize` call then sorts each category's entries by
//! name and assigns ids as the 0-based position in the sorted order, producing
//! an immutable id table. The name-sorted order, not the discovery order, is
//! canonical: registering the same set of types in any order yields the same
//! id assignment.

use crate::order::{
    lemma_lex_leq_antisymmetric, lemma_lex_leq_connected, lemma_reg_leq_total_ordering, lex_leq,
    reg_leq, reg_leq_fn, RegView,
};
use vstd::multiset::Multiset;
use vstd::prelude::*;
use vstd::relations::{sorted_by, total_ordering};
use vstd::seq_lib::lemma_sorted_unique;

verus! {

broadcast use vstd::seq_lib::group_to_multiset_ensures, vstd::multiset::group_multiset_axioms;

/// A component type's registration record: its opaque per-type key and its
/// human-readable name.
pub struct ComponentRegistration {
    pub type_key: u64,
    pub name: Vec<u8>,
}

/// A resource type's registration record: its opaque per-type key and its
/// human-readable name.
pub struct ResourceRegistration {
    pub type_key: u64,
    pub name: Vec<u8>,
}

/// The shape shared by entries of both categories once they are inside the
/// registry.
pub struct RegEntry {
    pub type_key: u64,
    pub name: Vec<u8>,
}

impl View for ComponentRegistration {
    type V = RegView;

    open spec fn view(&self) -> RegView {
        RegView { name: self.name@, key: self.type_key }
    }
}

impl View for ResourceRegistration {
    type V = RegView;

    open spec fn view(&self) -> RegView {
        RegView { name: self.name@, key: self.type_key }
    }
}

impl View for RegEntry {
    type V = RegView;

    open spec fn view(&self) -> RegView {
        RegView { name: self.name@, key: self.type_key }
    }
}

/// The entries of a list, as mathematical values.
pub open spec fn views_of(s: Seq<RegEntry>) -> Seq<RegView> {
    s.map_values(|r: RegEntry| r@)
}

/// Whether some entry carries the given type key.
pub open spec fn has_key(s: Seq<RegView>, key: u64) -> bool {
    exists|i: int| 0 <= i < s.len() && (#[trigger] s[i]).key == key
}

/// Whether some entry carries the given name.
pub open spec fn has_name(s: Seq<RegView>, name: Seq<u8>) -> bool {
    exists|i: int| 0 <= i < s.len() && (#[trigger] s[i]).name == name
}

/// No two entries share a key, and no two entries share a name.
pub open spec fn distinct_entries(s: Seq<RegView>) -> bool {
    forall|i: int, j: int| #![trigger s[i], s[j]]
        0 <= i < j < s.len() ==> s[i].key != s[j].key && s[i].name != s[j].name
}

/// Byte-string equality.
fn bytes_eq(a: &Vec<u8>, b: &Vec<u8>) -> (r: bool)
    ensures
        r == (a@ == b@),
{
    if a.len() != b.len() {
        return false;
    }
    let n = a.len();
    let mut i: usize = 0;
    while i < n
        invariant
            i <= n,
            n == a@.len(),
            n == b@.len(),
            forall|j: int| 0 <= j < i ==> a@[j] == b@[j],
        decreases n - i,
    {
        if a[i] != b[i] {
            return false;
        }
        i = i + 1;
    }
    proof {
        assert(a@ =~= b@);
    }
    true
}

/// How the lexicographic order is decided by the first differing position of
/// two byte strings with a common prefix.
proof fn lemma_lex_from_prefix(a: Seq<u8>, b: Seq<u8>, i: int)
    requires
        0 <= i <= a.len(),
        i <= b.len(),
        forall|j: int| 0 <= j < i ==> a[j] == b[j],
    ensures
        (i < a.len() && i < b.len() && a[i] < b[i]) ==> lex_leq(a, b),
        (i < a.len() && i < b.len() && a[i] > b[i]) ==> !lex_leq(a, b),
        i == a.len() ==> lex_leq(a, b),
        (i == b.len() && i < a.len()) ==> !lex_leq(a, b),
    decreases i,
{
    if i > 0 {
        assert(a[0] == b[0]);
        assert forall|j: int| 0 <= j < i - 1 implies a.drop_first()[j] == b.drop_first()[j] by {
            assert(a[j + 1] == b[j + 1]);
        }
        lemma_lex_from_prefix(a.drop_first(), b.drop_first(), i - 1);
        if i < a.len() && i < b.len() {
            assert(a.drop_first()[i - 1] == a[i]);
            assert(b.drop_first()[i - 1] == b[i]);
        }
    }
}

/// Decides the canonical entry order on two entries.
fn reg_le(a: &RegEntry, b: &RegEntry) -> (r: bool)
    ensures
        r == reg_leq(a@, b@),
{
    let alen = a.name.len();
    let blen = b.name.len();
    let mut i: usize = 0;
    while i < alen && i < blen
        invariant
            i <= alen,
            i <= blen,
            alen == a.name@.len(),
            blen == b.name@.len(),
            forall|j: int| 0 <= j < i ==> a.name@[j] == b.name@[j],
        decreases alen - i,
    {
        let x = a.name[i];
        let y = b.name[i];
        if x < y {
            proof {
                lemma_lex_from_prefix(a.name@, b.name@, i as int);
                assert(a.name@[i as int] != b.name@[i as int]);
                assert(a.name@ != b.name@);
            }
            return true;
        }
        if y < x {
            proof {
                lemma_lex_from_prefix(a.name@, b.name@, i as int);
                assert(a.name@[i as int] != b.name@[i as int]);
                assert(a.name@ != b.name@);
            }
            return false;
        }
        i = i + 1;
    }
    if alen == blen {
        proof {
            assert(a.name@ =~= b.name@);
        }
        a.type_key <= b.type_key
    } else if alen < blen {
        proof {
            lemma_lex_from_prefix(a.name@, b.name@, i as int);
            if a.name@ == b.name@ {
                assert(a.name@.len() == b.name@.len());
            }
        }
        true
    } else {
        proof {
            lemma_lex_from_prefix(a.name@, b.name@, i as int);
            if a.name@ == b.name@ {
                assert(a.name@.len() == b.name@.len());
            }
        }
        false
    }
}

/// Whether the list already holds an entry with the given key or name.
fn find_dup(v: &Vec<RegEntry>, key: u64, name: &Vec<u8>) -> (r: bool)
    ensures
        r == (has_key(views_of(v@), key) || has_name(views_of(v@), name@)),
{
    let n = v.len();
    let mut i: usize = 0;
    while i < n
        invariant
            i <= n,
            n == v@.len(),
            forall|j: int| 0 <= j < i ==> (#[trigger] views_of(v@)[j]).key != key,
            forall|j: int| 0 <= j < i ==> (#[trigger] views_of(v@)[j]).name != name@,
        decreases n - i,
    {
        if v[i].type_key == key {
            proof {
                assert(views_of(v@)[i as int].key == key);
            }
            return true;
        }
        if bytes_eq(&v[i].name, name) {
            proof {
                assert(views_of(v@)[i as int].name == name@);
            }
            return true;
        }
        i = i + 1;
    }
    false
}

/// The open registration phase: two independent lists, one per category.
/// Any number of types may register, in any order; duplicates (by key or by
/// name) are rejected rather than collected twice.
pub struct Registry {
    components: Vec<RegEntry>,
    resources: Vec<RegEntry>,
}

impl Registry {
    /// The component registrations collected so far.
    pub closed spec fn comp_entries(&self) -> Seq<RegView> {
        views_of(self.components@)
    }

    /// The resource registrations collected so far.
    pub closed spec fn res_entries(&self) -> Seq<RegView> {
        views_of(self.resources@)
    }

    /// Within each category, keys are unique and names are unique.
    pub open spec fn wf(&self) -> bool {
        distinct_entries(self.comp_entries()) && distinct_entries(self.res_entries())
    }

    /// Opens an empty registry.
    pub fn new() -> (r: Registry)
        ensures
            r.wf(),
            r.comp_entries().len() == 0,
            r.res_entries().len() == 0,
    {
        Registry { components: Vec::new(), resources: Vec::new() }
    }

    /// Collects one component type's registration. Succeeds exactly when no
    /// component registration with the same key or the same name was
    /// collected before; a duplicate leaves the registry unchanged.
    pub fn register_component(&mut self, reg: ComponentRegistration) -> (added: bool)
        requires
            old(self).wf(),
        ensures
            final(self).wf(),
            final(self).res_entries() == old(self).res_entries(),
            added == (!has_key(old(self).comp_entries(), reg@.key) && !has_name(
                old(self).comp_entries(),
                reg@.name,
            )),
            added ==> final(self).comp_entries() == old(self).comp_entries().push(reg@),
            !added ==> final(self).comp_entries() == old(self).comp_entries(),
    {
        let dup = find_dup(&self.components, reg.type_key, &reg.name);
        if dup {
            false
        } else {
            let ghost prior = self.comp_entries();
            self.components.push(RegEntry { type_key: reg.type_key, name: reg.name });
            proof {
                assert(self.comp_entries() =~= prior.push(reg@));
            }
            true
        }
    }

    /// Collects one resource type's registration, under the same discipline
    /// as `register_component`.
    pub fn register_resource(&mut self, reg: ResourceRegistration) -> (added: bool)
        requires
            old(self).wf(),
        ensures
            final(self).wf(),
            final(self).comp_entries() == old(self).comp_entries(),
            added == (!has_key(old(self).res_entries(), reg@.key) && !has_name(
                old(self).res_entries(),
                reg@.name,
            )),
            added ==> final(self).res_entries() == old(self).res_entries().push(reg@),
            !added ==> final(self).res_entries() == old(self).res_entries(),
    {
        let dup = find_dup(&self.resources, reg.type_key, &reg.name);
        if dup {
            false
        } else {
            let ghost prior = self.res_entries();
            self.resources.push(RegEntry { type_key: reg.type_key, name: reg.name });
            proof {
                assert(self.res_entries() =~= prior.push(reg@));
            }
            true
        }
    }

    /// Closes the registration phase: sorts each category's entries into the
    /// canonical name order and produces the immutable id table. The id of a
    /// type is its position in the sorted order of its category.
    pub fn finalize(self) -> (t: IdTable)
        requires
            self.wf(),
        ensures
            t.wf(),
            t.comp_entries().to_multiset() == self.comp_entries().to_multiset(),
            t.res_entries().to_multiset() == self.res_entries().to_multiset(),
    {
        let ghost comp_prior = self.comp_entries();
        let ghost res_prior = self.res_entries();
        let components = sort_entries(self.components);
        let resources = sort_entries(self.resources);
        proof {
            lemma_multiset_distinct(comp_prior, views_of(components@));
            lemma_multiset_distinct(res_prior, views_of(resources@));
        }
        IdTable { components, resources }
    }
}

/// Sorts a list of entries into the canonical order, by insertion.
fn sort_entries(input: Vec<RegEntry>) -> (out: Vec<RegEntry>)
    ensures
        sorted_by(views_of(out@), reg_leq_fn()),
        views_of(out@).to_multiset() == views_of(input@).to_multiset(),
{
    let ghost orig = views_of(input@);
    let mut rest = input;
    let mut out: Vec<RegEntry> = Vec::new();
    proof {
        assert(views_of(out@) =~= Seq::<RegView>::empty());
        assert(views_of(out@).to_multiset().add(views_of(rest@).to_multiset())
            =~= orig.to_multiset());
    }
    while rest.len() > 0
        invariant
            sorted_by(views_of(out@), reg_leq_fn()),
            views_of(out@).to_multiset().add(views_of(rest@).to_multiset()) == orig.to_multiset(),
        decreases rest@.len(),
    {
        let ghost rest_prior = views_of(rest@);
        let ghost out_prior = views_of(out@);
        let e = rest.remove(0);
        proof {
            rest_prior.remove_ensures(0);
            assert(views_of(rest@) =~= rest_prior.remove(0));
            assert(rest_prior[0] == e@);
            assert(rest_prior.contains(e@));
        }
        let mut p: usize = 0;
        loop
            invariant
                p <= out.len(),
                forall|j: int| 0 <= j < p ==> reg_leq(#[trigger] views_of(out@)[j], e@),
            ensures
                p <= out.len(),
                forall|j: int| 0 <= j < p ==> reg_leq(#[trigger] views_of(out@)[j], e@),
                p < out.len() ==> !reg_leq(views_of(out@)[p as int], e@),
            decreases out.len() - p,
        {
            if p >= out.len() {
                break ;
            }
            let le = reg_le(&out[p], &e);
            if !le {
                break ;
            }
            p = p + 1;
        }
        proof {
            if p < out_prior.len() {
                crate::order::lemma_reg_leq_connected_entry(out_prior[p as int], e@);
            }
            assert forall|j: int| p <= j < out_prior.len() implies reg_leq(
                e@,
                #[trigger] out_prior[j],
            ) by {
                assert(reg_leq_fn()(out_prior[p as int], out_prior[j]) || p as int == j);
                crate::order::lemma_reg_leq_transitive_entry(
                    e@,
                    out_prior[p as int],
                    out_prior[j],
                );
            }
        }
        out.insert(p, e);
        proof {
            out_prior.insert_ensures(p as int, e@);
            assert(views_of(out@) =~= out_prior.insert(p as int, e@));
            let nv = views_of(out@);
            assert forall|i: int, j: int|
                0 <= i < j < nv.len() implies reg_leq_fn()(nv[i], nv[j]) by {
                if i < p && j < p {
                } else if i < p && j == p {
                } else if i == p {
                    assert(nv[j] == out_prior[j - 1]);
                } else if j == p {
                    assert(nv[i] == out_prior[i]);
                } else {
                    if i > p && j > p {
                        assert(nv[i] == out_prior[i - 1]);
                        assert(nv[j] == out_prior[j - 1]);
                        assert(reg_leq_fn()(out_prior[i - 1], out_prior[j - 1]));
                    } else {
                        assert(nv[i] == out_prior[i]);
                        assert(nv[j] == out_prior[j - 1]);
                        if i < j - 1 {
                            assert(reg_leq_fn()(out_prior[i], out_prior[j - 1]));
                        } else {
                            assert(reg_leq(out_prior[i], e@));
                            assert(reg_leq(e@, out_prior[j - 1]));
                            crate::order::lemma_reg_leq_transitive_entry(
                                out_prior[i],
                                e@,
                                out_prior[j - 1],
                            );
                        }
                    }
                }
            }
            // Multiset bookkeeping: the moved entry leaves `rest` and enters
            // `out`, so the combined contents are unchanged.
            assert(nv.remove(p as int) =~= out_prior);
            assert(nv.remove(p as int).to_multiset() == nv.to_multiset().remove(e@));
            assert(views_of(rest@).to_multiset() == rest_prior.to_multiset().remove(e@));
            assert(rest_prior.to_multiset().count(e@) > 0);
            assert(nv.to_multiset().count(e@) > 0) by {
                assert(nv[p as int] == e@);
                assert(nv.contains(e@));
            }
            assert(nv.to_multiset().add(views_of(rest@).to_multiset()) =~= orig.to_multiset());
        }
    }
    proof {
        assert(views_of(rest@) =~= Seq::<RegView>::empty());
        assert(views_of(rest@).to_multiset() =~= Multiset::<RegView>::empty());
        assert(views_of(out@).to_multiset() =~= orig.to_multiset());
    }
    out
}

/// Distinctness of keys and names is a property of an entry collection's
/// contents alone, so it survives any reordering.
proof fn lemma_multiset_distinct(a: Seq<RegView>, b: Seq<RegView>)
    requires
        distinct_entries(a),
        a.to_multiset() == b.to_multiset(),
    ensures
        distinct_entries(b),
{
    assert forall|i: int, j: int| #![trigger b[i], b[j]]
        0 <= i < j < b.len() implies b[i].key != b[j].key && b[i].name != b[j].name by {
        if b[i] == b[j] {
            let shrunk = b.remove(j);
            assert(shrunk.to_multiset() == b.to_multiset().remove(b[j]));
            assert(shrunk[i] == b[i]);
            assert(shrunk.contains(b[i]));
            assert(shrunk.to_multiset().count(b[i]) > 0);
            assert(b.to_multiset().count(b[i]) >= 2);
            assert(a.to_multiset().count(b[i]) >= 2);
            let i1 = choose|k: int| 0 <= k < a.len() && a[k] == b[i];
            assert(a.to_multiset().contains(b[i]));
            assert(a.contains(b[i]));
            let a2 = a.remove(i1);
            assert(a2.to_multiset() == a.to_multiset().remove(b[i]));
            assert(a2.to_multiset().count(b[i]) >= 1);
            assert(a2.contains(b[i]));
            let i2 = choose|k: int| 0 <= k < a2.len() && a2[k] == b[i];
            a.remove_ensures(i1);
            if i2 < i1 {
                assert(a[i2] == b[i]);
                assert(a[i2].key == a[i1].key);
            } else {
                assert(a[i2 + 1] == b[i]);
                assert(a[i2 + 1].key == a[i1].key);
            }
            assert(false);
        } else {
            assert(b.contains(b[i]));
            assert(b.contains(b[j]));
            assert(a.to_multiset().count(b[i]) > 0);
            assert(a.to_multiset().count(b[j]) > 0);
            assert(a.contains(b[i]));
            assert(a.contains(b[j]));
            let ia = choose|k: int| 0 <= k < a.len() && a[k] == b[i];
            let ja = choose|k: int| 0 <= k < a.len() && a[k] == b[j];
            assert(ia != ja);
            if b[i].key == b[j].key || b[i].name == b[j].name {
                if ia < ja {
                    assert(a[ia].key != a[ja].key && a[ia].name != a[ja].name);
                } else {
                    assert(a[ja].key != a[ia].key && a[ja].name != a[ia].name);
                }
                assert(false);
            }
        }
    }
}

/// Whether an entry list is a finalized table: canonically sorted, with
/// unique keys and unique names.
pub open spec fn table_wf(s: Seq<RegView>) -> bool {
    sorted_by(s, reg_leq_fn()) && distinct_entries(s)
}

/// The finalized id table: for each category, the registered entries in
/// canonical name order. The id of a type is its index in its category.
pub struct IdTable {
    components: Vec<RegEntry>,
    resources: Vec<RegEntry>,
}

impl IdTable {
    /// The component entries, in id order.
    pub closed spec fn comp_entries(&self) -> Seq<RegView> {
        views_of(self.components@)
    }

    /// The resource entries, in id order.
    pub closed spec fn res_entries(&self) -> Seq<RegView> {
        views_of(self.resources@)
    }

    pub open spec fn wf(&self) -> bool {
        table_wf(self.comp_entries()) && table_wf(self.res_entries())
    }

    /// How many component types are registered; ids run from 0 below this.
    pub fn component_count(&self) -> (n: usize)
        ensures
            n == self.comp_entries().len(),
    {
        self.components.len()
    }

    /// How many resource types are registered; ids run from 0 below this.
    pub fn resource_count(&self) -> (n: usize)
        ensures
            n == self.res_entries().len(),
    {
        self.resources.len()
    }

    /// The id assigned to the component type with the given key. Requesting
    /// the id of a type that never registered is a programming error, ruled
    /// out by the precondition.
    pub fn get_component_id(&self, type_key: u64) -> (id: usize)
        requires
            self.wf(),
            has_key(self.comp_entries(), type_key),
        ensures
            id < self.comp_entries().len(),
            self.comp_entries()[id as int].key == type_key,
    {
        find_key(&self.components, type_key)
    }

    /// The id assigned to the resource type with the given key, under the
    /// same discipline as `get_component_id`.
    pub fn get_resource_id(&self, type_key: u64) -> (id: usize)
        requires
            self.wf(),
            has_key(self.res_entries(), type_key),
        ensures
            id < self.res_entries().len(),
            self.res_entries()[id as int].key == type_key,
    {
        find_key(&self.resources, type_key)
    }
}

/// Index of the entry carrying the given key.
fn find_key(v: &Vec<RegEntry>, key: u64) -> (id: usize)
    requires
        has_key(views_of(v@), key),
    ensures
        id < v@.len(),
        views_of(v@)[id as int].key == key,
{
    let n = v.len();
    let mut i: usize = 0;
    while i < n
        invariant
            i <= n,
            n == v@.len(),
            forall|j: int| 0 <= j < i ==> (#[trigger] views_of(v@)[j]).key != key,
            has_key(views_of(v@), key),
        decreases n - i,
    {
        if v[i].type_key == key {
            proof {
                assert(views_of(v@)[i as int].key == key);
            }
            return i;
        }
        i = i + 1;
    }
    proof {
        let w = choose|j: int| 0 <= j < views_of(v@).len() && (#[trigger] views_of(v@)[j]).key
            == key;
        assert(false);
    }
    0
}

/// Registry determinism: a canonically sorted table is determined by the
/// collection of entries alone. Two finalized tables built from the same set
/// of registrations — in whatever discovery order, and whether built once or
/// rebuilt — are identical, so the id assignment is stable.
pub proof fn lemma_table_determinism(t1: Seq<RegView>, t2: Seq<RegView>)
    requires
        sorted_by(t1, reg_leq_fn()),
        sorted_by(t2, reg_leq_fn()),
        t1.to_multiset() == t2.to_multiset(),
    ensures
        t1 == t2,
{
    lemma_reg_leq_total_ordering();
    lemma_sorted_unique(t1, t2, reg_leq_fn());
    assert(t1 =~= t2);
}

} // verus!
