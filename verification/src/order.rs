//! The canonical order on registry entries: lexicographic by name, with the
//! type key as a tie-breaker. Sorting registrations in this order removes any
//! dependence on discovery order when ids are assigned.

use vstd::prelude::*;
use vstd::relations::{antisymmetric, reflexive, strongly_connected, total_ordering, transitive};

verus! {

/// Mathematical content of one registry entry: the human-readable type name
/// and the opaque per-type key.
#[verifier::ext_equal]
pub ghost struct RegView {
    pub name: Seq<u8>,
    pub key: u64,
}

/// Lexicographic "less or equal" on byte strings.
pub open spec fn lex_leq(a: Seq<u8>, b: Seq<u8>) -> bool
    decreases a.len(),
{
    if a.len() == 0 {
        true
    } else if b.len() == 0 {
        false
    } else if a[0] < b[0] {
        true
    } else if a[0] > b[0] {
        false
    } else {
        lex_leq(a.drop_first(), b.drop_first())
    }
}

/// Entries are ordered by name; entries with equal names fall back to the key.
pub open spec fn reg_leq(a: RegView, b: RegView) -> bool {
    if a.name == b.name {
        a.key <= b.key
    } else {
        lex_leq(a.name, b.name)
    }
}

/// The entry order as a first-class relation, for `sorted_by`.
pub open spec fn reg_leq_fn() -> spec_fn(RegView, RegView) -> bool {
    |a: RegView, b: RegView| reg_leq(a, b)
}

pub proof fn lemma_lex_leq_antisymmetric(a: Seq<u8>, b: Seq<u8>)
    requires
        lex_leq(a, b),
        lex_leq(b, a),
    ensures
        a == b,
    decreases a.len(),
{
    if a.len() == 0 {
        assert(b.len() == 0);
        assert(a =~= b);
    } else {
        assert(b.len() != 0);
        assert(a[0] == b[0]);
        lemma_lex_leq_antisymmetric(a.drop_first(), b.drop_first());
        assert forall|i: int| 0 <= i < a.len() implies a[i] == b[i] by {
            if i > 0 {
                assert(a[i] == a.drop_first()[i - 1]);
                assert(b[i] == b.drop_first()[i - 1]);
            }
        }
        assert(a =~= b);
    }
}

pub proof fn lemma_lex_leq_transitive(a: Seq<u8>, b: Seq<u8>, c: Seq<u8>)
    requires
        lex_leq(a, b),
        lex_leq(b, c),
    ensures
        lex_leq(a, c),
    decreases a.len(),
{
    if a.len() == 0 {
    } else {
        assert(b.len() != 0);
        assert(c.len() != 0);
        if a[0] < b[0] {
            assert(a[0] < c[0] || (a[0] == c[0] && b[0] > c[0]));
            assert(b[0] <= c[0]);
        } else {
            assert(a[0] == b[0]);
            if b[0] == c[0] {
                lemma_lex_leq_transitive(a.drop_first(), b.drop_first(), c.drop_first());
            }
        }
    }
}

pub proof fn lemma_lex_leq_connected(a: Seq<u8>, b: Seq<u8>)
    ensures
        lex_leq(a, b) || lex_leq(b, a),
    decreases a.len(),
{
    if a.len() != 0 && b.len() != 0 && a[0] == b[0] {
        lemma_lex_leq_connected(a.drop_first(), b.drop_first());
    }
}

/// The entry order is a total ordering, so a sorted list of entries is the
/// unique canonical arrangement of its contents.
pub proof fn lemma_reg_leq_total_ordering()
    ensures
        total_ordering(reg_leq_fn()),
{
    let leq = reg_leq_fn();
    assert forall|x: RegView| #[trigger] leq(x, x) by {
        assert(reg_leq(x, x));
    }
    assert(reflexive(leq));
    assert forall|x: RegView, y: RegView| #[trigger] leq(x, y) && #[trigger] leq(y, x) implies x
        == y by {
        if x.name == y.name {
            assert(x.key == y.key);
            assert(x =~= y);
        } else {
            lemma_lex_leq_antisymmetric(x.name, y.name);
        }
    }
    assert(antisymmetric(leq));
    assert forall|x: RegView, y: RegView, z: RegView|
        #[trigger] leq(x, y) && #[trigger] leq(y, z) implies leq(x, z) by {
        lemma_reg_leq_transitive_entry(x, y, z);
    }
    assert(transitive(leq));
    assert forall|x: RegView, y: RegView| #[trigger] leq(x, y) || #[trigger] leq(y, x) by {
        if x.name == y.name {
        } else {
            lemma_lex_leq_connected(x.name, y.name);
        }
    }
    assert(strongly_connected(leq));
}

/// Any two entries are comparable in the entry order.
pub proof fn lemma_reg_leq_connected_entry(x: RegView, y: RegView)
    ensures
        reg_leq(x, y) || reg_leq(y, x),
{
    if x.name != y.name {
        lemma_lex_leq_connected(x.name, y.name);
    }
}

/// The entry order is transitive.
pub proof fn lemma_reg_leq_transitive_entry(x: RegView, y: RegView, z: RegView)
    requires
        reg_leq(x, y),
        reg_leq(y, z),
    ensures
        reg_leq(x, z),
{
    if x.name == y.name && y.name == z.name {
    } else if x.name == y.name {
        assert(lex_leq(y.name, z.name));
        assert(x.name != z.name);
    } else if y.name == z.name {
        assert(lex_leq(x.name, y.name));
        if x.name == z.name {
            assert(x.name == y.name);
        }
    } else {
        lemma_lex_leq_transitive(x.name, y.name, z.name);
        if x.name == z.name {
            lemma_lex_leq_antisymmetric(x.name, y.name);
        }
    }
}

} // verus!
