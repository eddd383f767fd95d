//! The order of identifiers.
//!
//! An identifier is a string. Identifiers are ordered character by
//! character, by code point; where one is a prefix of the other, the shorter
//! one comes first. This is the order of the identifiers' UTF-8 bytes.

use vstd::prelude::*;
use vstd::std_specs::iter::IteratorSpec;

verus! {

/// Whether `a` comes before `b`, or equals it, in lexicographic order.
pub open spec fn id_le(a: Seq<char>, b: Seq<char>) -> bool
    decreases a.len(),
{
    if a.len() == 0 {
        true
    } else if b.len() == 0 {
        false
    } else if a[0] != b[0] {
        a[0] < b[0]
    } else {
        id_le(a.drop_first(), b.drop_first())
    }
}

/// Any two identifiers are ordered one way or the other.
pub proof fn lemma_id_le_total(a: Seq<char>, b: Seq<char>)
    ensures
        id_le(a, b) || id_le(b, a),
    decreases a.len(),
{
    if a.len() > 0 && b.len() > 0 && a[0] == b[0] {
        lemma_id_le_total(a.drop_first(), b.drop_first());
    }
}

/// The order is transitive.
pub proof fn lemma_id_le_transitive(a: Seq<char>, b: Seq<char>, c: Seq<char>)
    requires
        id_le(a, b),
        id_le(b, c),
    ensures
        id_le(a, c),
    decreases a.len(),
{
    if a.len() > 0 && b.len() > 0 && c.len() > 0 && a[0] == b[0] && b[0] == c[0] {
        lemma_id_le_transitive(a.drop_first(), b.drop_first(), c.drop_first());
    }
}

/// Two identifiers that are ordered both ways are equal.
pub proof fn lemma_id_le_antisymmetric(a: Seq<char>, b: Seq<char>)
    requires
        id_le(a, b),
        id_le(b, a),
    ensures
        a == b,
    decreases a.len(),
{
    if a.len() > 0 && b.len() > 0 {
        lemma_id_le_antisymmetric(a.drop_first(), b.drop_first());
        assert(a =~= seq![a[0]] + a.drop_first());
        assert(b =~= seq![b[0]] + b.drop_first());
    } else {
        assert(a =~= b);
    }
}

/// The order of identifiers as a relation.
pub open spec fn id_order() -> spec_fn(Seq<char>, Seq<char>) -> bool {
    |a: Seq<char>, b: Seq<char>| id_le(a, b)
}

/// The order of identifiers is a total order.
pub proof fn lemma_id_order_is_total()
    ensures
        vstd::relations::total_ordering(id_order()),
{
    let r = id_order();
    assert forall|a: Seq<char>| #[trigger] r(a, a) by {
        lemma_id_le_total(a, a);
    }
    assert forall|a: Seq<char>, b: Seq<char>| #[trigger] r(a, b) && #[trigger] r(b, a) implies a
        == b by {
        lemma_id_le_antisymmetric(a, b);
    }
    assert forall|a: Seq<char>, b: Seq<char>, c: Seq<char>| #[trigger]
        r(a, b) && #[trigger] r(b, c) implies r(a, c) by {
        lemma_id_le_transitive(a, b, c);
    }
    assert forall|a: Seq<char>, b: Seq<char>| #[trigger] r(a, b) || #[trigger] r(b, a) by {
        lemma_id_le_total(a, b);
    }
}

/// Whether identifier `a` comes before `b`, or equals it.
pub fn precedes_or_equals(a: &str, b: &str) -> (r: bool)
    ensures
        r == id_le(a@, b@),
{
    broadcast use vstd::string::group_string_axioms;
    let mut xs = a.chars();
    let mut ys = b.chars();
    loop
        invariant
            xs.obeys_prophetic_iter_laws(),
            ys.obeys_prophetic_iter_laws(),
            xs.decrease() is Some,
            id_le(a@, b@) == id_le(xs.remaining(), ys.remaining()),
        decreases xs.decrease()->0,
    {
        match xs.next() {
            None => {
                return true;
            },
            Some(x) => {
                match ys.next() {
                    None => {
                        return false;
                    },
                    Some(y) => {
                        if x != y {
                            return x < y;
                        }
                    },
                }
            },
        }
    }
}

} // verus!
