//! What clauses mean: valuations, models, and what follows from a set of
//! input clauses.
use vstd::prelude::*;
use crate::lit::{is_pos, neg_of, var_of, Lit};

verus! {

/// Literal `l` is true under the total assignment `m` (indexed by variable).
pub open spec fn lit_holds(m: Seq<bool>, l: Lit) -> bool {
    if is_pos(l as int) {
        m[var_of(l as int)]
    } else {
        !m[var_of(l as int)]
    }
}

/// Some literal of `c` is true under `m`.
pub open spec fn clause_holds(m: Seq<bool>, c: Seq<Lit>) -> bool {
    exists|k: int| 0 <= k < c.len() && #[trigger] lit_holds(m, c[k])
}

/// `m` assigns the `nv` variables and satisfies every clause of `f`.
pub open spec fn is_model(m: Seq<bool>, f: Seq<Seq<Lit>>, nv: int) -> bool {
    &&& m.len() == nv
    &&& forall|i: int| 0 <= i < f.len() ==> #[trigger] clause_holds(m, f[i])
}

/// Clause `c` follows from `f`: every model of `f` satisfies it.
pub open spec fn implies_clause(f: Seq<Seq<Lit>>, nv: int, c: Seq<Lit>) -> bool {
    forall|m: Seq<bool>| #[trigger] is_model(m, f, nv) ==> clause_holds(m, c)
}

/// `f` has no model over `nv` variables.
pub open spec fn unsatisfiable(f: Seq<Seq<Lit>>, nv: int) -> bool {
    forall|m: Seq<bool>| !#[trigger] is_model(m, f, nv)
}

/// A literal and its complement take opposite values under a total
/// assignment.
pub proof fn lemma_holds_neg(m: Seq<bool>, l: Lit)
    requires
        (l as int) < u32::MAX,
    ensures
        lit_holds(m, neg_of(l as int) as Lit) == !lit_holds(m, l),
{
    assert(var_of(neg_of(l as int)) == var_of(l as int));
    assert(is_pos(neg_of(l as int)) != is_pos(l as int));
}

/// A clause holding every literal of an implied clause is implied too:
/// implication depends only on which literals a clause holds.
pub proof fn lemma_implies_same_lits(f: Seq<Seq<Lit>>, nv: int, c: Seq<Lit>, c2: Seq<Lit>)
    requires
        implies_clause(f, nv, c),
        forall|x: Lit| #[trigger] c.contains(x) ==> c2.contains(x),
    ensures
        implies_clause(f, nv, c2),
{
    assert forall|m: Seq<bool>| #[trigger] is_model(m, f, nv) implies clause_holds(m, c2) by {
        assert(clause_holds(m, c));
        let k = choose|k: int| 0 <= k < c.len() && #[trigger] lit_holds(m, c[k]);
        assert(c.contains(c[k]));
        assert(c2.contains(c[k]));
        let k2 = choose|k2: int| 0 <= k2 < c2.len() && c2[k2] == c[k];
        assert(lit_holds(m, c2[k2]));
    }
}

/// Adding a clause to the formula keeps every implication.
pub proof fn lemma_implies_more(f: Seq<Seq<Lit>>, nv: int, c: Seq<Lit>, extra: Seq<Lit>)
    requires
        implies_clause(f, nv, c),
    ensures
        implies_clause(f.push(extra), nv, c),
{
    assert forall|m: Seq<bool>| #[trigger] is_model(m, f.push(extra), nv) implies clause_holds(m, c) by {
        assert forall|i: int| 0 <= i < f.len() implies #[trigger] clause_holds(m, f[i]) by {
            assert(f.push(extra)[i] == f[i]);
        }
        assert(is_model(m, f, nv));
    }
}

/// Adding clauses to a formula with no model leaves it without one.
pub proof fn lemma_unsat_more(f: Seq<Seq<Lit>>, g: Seq<Seq<Lit>>, nv: int)
    requires
        unsatisfiable(f, nv),
    ensures
        unsatisfiable(f + g, nv),
{
    assert forall|m: Seq<bool>| !#[trigger] is_model(m, f + g, nv) by {
        if is_model(m, f + g, nv) {
            assert forall|i: int| 0 <= i < f.len() implies #[trigger] clause_holds(m, f[i]) by {
                assert((f + g)[i] == f[i]);
                assert(clause_holds(m, (f + g)[i]));
            }
            assert(is_model(m, f, nv));
        }
    }
}

/// A formula with an empty clause has no model.
pub proof fn lemma_unsat_empty(f: Seq<Seq<Lit>>, nv: int, i: int)
    requires
        0 <= i < f.len(),
        f[i].len() == 0,
    ensures
        unsatisfiable(f, nv),
{
    assert forall|m: Seq<bool>| !#[trigger] is_model(m, f, nv) by {
        if is_model(m, f, nv) {
            assert(clause_holds(m, f[i]));
        }
    }
}

} // verus!
