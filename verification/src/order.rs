//! The order of station names: byte by byte, a name before every longer
//! name that it begins.

use vstd::prelude::*;

verus! {

/// `a` and `b` agree before `at`, and there `a` ends or has the smaller
/// byte, while `b` goes on.
pub open spec fn precedes_at(a: Seq<u8>, b: Seq<u8>, at: int) -> bool {
    &&& 0 <= at <= a.len()
    &&& at < b.len()
    &&& forall|i: int| 0 <= i < at ==> a[i] == b[i]
    &&& (at == a.len() || a[at] < b[at])
}

/// `a` comes before `b` in lexicographic byte order.
pub open spec fn lex_less(a: Seq<u8>, b: Seq<u8>) -> bool {
    exists|at: int| precedes_at(a, b, at)
}

/// No name comes before itself.
pub proof fn lemma_lex_irreflexive(a: Seq<u8>)
    ensures
        !lex_less(a, a),
{
}

/// The order is transitive.
pub proof fn lemma_lex_transitive(a: Seq<u8>, b: Seq<u8>, c: Seq<u8>)
    requires
        lex_less(a, b),
        lex_less(b, c),
    ensures
        lex_less(a, c),
{
    let i = choose|at: int| precedes_at(a, b, at);
    let j = choose|at: int| precedes_at(b, c, at);
    if i <= j {
        assert(precedes_at(a, c, i));
    } else {
        assert(precedes_at(a, c, j));
    }
}

/// Of two names, one comes before the other, never both.
pub proof fn lemma_lex_asymmetric(a: Seq<u8>, b: Seq<u8>)
    requires
        lex_less(a, b),
    ensures
        !lex_less(b, a),
        a != b,
{
    if lex_less(b, a) {
        lemma_lex_transitive(a, b, a);
    }
}

proof fn lemma_lex_total_from(a: Seq<u8>, b: Seq<u8>, agreed: int)
    requires
        a != b,
        0 <= agreed <= a.len(),
        agreed <= b.len(),
        forall|i: int| 0 <= i < agreed ==> a[i] == b[i],
    ensures
        lex_less(a, b) || lex_less(b, a),
    decreases a.len() - agreed,
{
    if agreed == a.len() {
        if agreed == b.len() {
            assert(a =~= b);
        } else {
            assert(precedes_at(a, b, agreed));
        }
    } else if agreed == b.len() {
        assert(precedes_at(b, a, agreed));
    } else if a[agreed] < b[agreed] {
        assert(precedes_at(a, b, agreed));
    } else if b[agreed] < a[agreed] {
        assert(precedes_at(b, a, agreed));
    } else {
        lemma_lex_total_from(a, b, agreed + 1);
    }
}

/// Of two different names, one comes before the other.
pub proof fn lemma_lex_total(a: Seq<u8>, b: Seq<u8>)
    requires
        a != b,
    ensures
        lex_less(a, b) || lex_less(b, a),
{
    lemma_lex_total_from(a, b, 0);
}

/// Whether `a` comes before `b` in lexicographic byte order.
pub fn key_less(a: &[u8], b: &[u8]) -> (less: bool)
    ensures
        less == lex_less(a@, b@),
{
    let mut at: usize = 0;
    while at < a.len() && at < b.len() && a[at] == b[at]
        invariant
            at <= a.len(),
            at <= b.len(),
            forall|i: int| 0 <= i < at ==> a@[i] == b@[i],
        decreases a.len() - at,
    {
        at = at + 1;
    }
    if at == b.len() {
        assert forall|other: int| !precedes_at(a@, b@, other) by {}
        false
    } else if at == a.len() {
        assert(precedes_at(a@, b@, at as int));
        true
    } else if a[at] < b[at] {
        assert(precedes_at(a@, b@, at as int));
        true
    } else {
        assert forall|other: int| !precedes_at(a@, b@, other) by {
            if other > at {
                assert(a@[at as int] != b@[at as int]);
            }
        }
        false
    }
}

} // verus!
