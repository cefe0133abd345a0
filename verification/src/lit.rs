//! Literals and variables.
//!
//! Variable `v` (1-based in DIMACS) is encoded as the literal `2*(v-1)` when
//! positive and `2*(v-1)+1` when negative.
use vstd::prelude::*;

verus! {

pub type Lit = u32;

pub type Var = u32;

/// The largest number of variables a solver is made for, so that every
/// literal and every watch-list index fits in 32 bits.
pub const MAX_VARS: u32 = 0x7fff_fffeu32;

/// The literal value that stands for "no literal".
pub const LIT_UNDEF: u32 = 0xffff_ffffu32;

/// The three values a variable or literal can take.
pub const LBOOL_FALSE: u8 = 0u8;

pub const LBOOL_TRUE: u8 = 1u8;

pub const LBOOL_UNDEF: u8 = 2u8;

/// The variable of a literal.
pub open spec fn var_of(l: int) -> int {
    l / 2
}

/// Whether a literal is the positive occurrence of its variable.
pub open spec fn is_pos(l: int) -> bool {
    l % 2 == 0
}

/// The complementary literal.
pub open spec fn neg_of(l: int) -> int {
    if l % 2 == 0 {
        l + 1
    } else {
        l - 1
    }
}

/// The literal encoding of a nonzero DIMACS integer.
pub open spec fn dimacs_to_lit(d: int) -> int {
    if d > 0 {
        2 * (d - 1)
    } else {
        2 * (-d - 1) + 1
    }
}

/// The DIMACS integer of a literal.
pub open spec fn lit_to_dimacs_int(l: int) -> int {
    if is_pos(l) {
        var_of(l) + 1
    } else {
        -(var_of(l) + 1)
    }
}

/// The value of literal `l` under the assignment `assigns` (indexed by variable):
/// undefined when its variable is unassigned, otherwise true exactly when the
/// variable's value agrees with the literal's sign.
pub open spec fn lit_value(assigns: Seq<u8>, l: int) -> u8 {
    let v = assigns[var_of(l)];
    if v == LBOOL_UNDEF {
        LBOOL_UNDEF
    } else if is_pos(l) {
        v
    } else {
        (v ^ 1u8) as u8
    }
}

/// Encodes a nonzero DIMACS integer as a literal.
pub fn lit_from_dimacs(d: i32) -> (l: Lit)
    requires
        d != 0,
        d != i32::MIN,
    ensures
        l == dimacs_to_lit(d as int),
{
    if d > 0 {
        2 * (d as u32 - 1)
    } else {
        2 * ((-d) as u32 - 1) + 1
    }
}

/// The complementary literal (flips the lowest bit).
pub fn lit_neg(l: Lit) -> (r: Lit)
    ensures
        r == neg_of(l as int),
{
    assert((l ^ 1u32) == (if l % 2 == 0 { l + 1 } else { l - 1 })) by (bit_vector);
    l ^ 1
}

/// The variable of a literal.
pub fn lit_var(l: Lit) -> (v: Var)
    ensures
        v == var_of(l as int),
{
    assert((l >> 1u32) == l / 2) by (bit_vector);
    l >> 1
}

/// Whether the literal is positive.
pub fn lit_sign(l: Lit) -> (b: bool)
    ensures
        b == is_pos(l as int),
{
    assert(((l & 1u32) == 0u32) == (l % 2 == 0)) by (bit_vector);
    (l & 1) == 0
}

/// The DIMACS integer of a literal.
pub fn lit_to_dimacs(l: Lit) -> (d: i32)
    requires
        var_of(l as int) < i32::MAX,
    ensures
        d == lit_to_dimacs_int(l as int),
{
    let v = (lit_var(l) + 1) as i32;
    if lit_sign(l) {
        v
    } else {
        -v
    }
}

/// The value of a literal under an assignment.
pub fn eval_lit(assigns: &[u8], l: Lit) -> (r: u8)
    requires
        var_of(l as int) < assigns@.len(),
    ensures
        r == lit_value(assigns@, l as int),
{
    let v = assigns[lit_var(l) as usize];
    if v == LBOOL_UNDEF {
        LBOOL_UNDEF
    } else if lit_sign(l) {
        v
    } else {
        v ^ 1
    }
}

/// Complementing twice gives the literal back, and a literal and its
/// complement share their variable and have opposite signs.
pub proof fn lemma_neg_involutive(l: int)
    requires
        l >= 0,
    ensures
        neg_of(neg_of(l)) == l,
        var_of(neg_of(l)) == var_of(l),
        is_pos(neg_of(l)) != is_pos(l),
        neg_of(l) != l,
        neg_of(l) >= 0,
{
}

/// Encoding a nonzero DIMACS integer and decoding it again gives it back,
/// and decoding a literal and encoding it again gives the literal back.
pub proof fn lemma_dimacs_roundtrip(d: int, l: int)
    requires
        d != 0,
        l >= 0,
    ensures
        lit_to_dimacs_int(dimacs_to_lit(d)) == d,
        dimacs_to_lit(lit_to_dimacs_int(l)) == l,
{
}

/// On a well-formed assignment, a literal and its complement have the same
/// definedness, and when defined exactly one of them is true.
pub proof fn lemma_value_of_neg(assigns: Seq<u8>, l: int)
    requires
        l >= 0,
        0 <= var_of(l) < assigns.len(),
        assigns[var_of(l)] <= 2,
    ensures
        lit_value(assigns, l) <= 2,
        (lit_value(assigns, l) == LBOOL_UNDEF) == (assigns[var_of(l)] == LBOOL_UNDEF),
        (lit_value(assigns, neg_of(l)) == LBOOL_UNDEF) == (lit_value(assigns, l) == LBOOL_UNDEF),
        lit_value(assigns, l) == LBOOL_TRUE <==> lit_value(assigns, neg_of(l)) == LBOOL_FALSE,
        lit_value(assigns, l) == LBOOL_FALSE <==> lit_value(assigns, neg_of(l)) == LBOOL_TRUE,
{
    let v = assigns[var_of(l)];
    assert(v == 0 || v == 1 || v == 2);
    assert((0u8 ^ 1u8) == 1u8) by (bit_vector);
    assert((1u8 ^ 1u8) == 0u8) by (bit_vector);
}

} // verus!
