//! The clause database, the assignment trail, two-watched-literal unit
//! propagation and 1-UIP conflict analysis.
use vstd::prelude::*;
use crate::clause::{count_distinct, dedup_sorted, sort_u32, sorted, strictly_sorted};
use crate::heap::VarHeap;
use crate::semantics::{
    clause_holds, implies_clause, is_model, lemma_holds_neg, lemma_implies_more, lemma_implies_same_lits, lemma_unsat_empty,
    lemma_unsat_more, lit_holds, unsatisfiable,
};
use crate::lit::{
    dimacs_to_lit, eval_lit, is_pos, lemma_value_of_neg, lit_neg, lit_sign, lit_value, lit_var, neg_of, var_of, Lit, Var, LBOOL_FALSE,
    LBOOL_TRUE, LBOOL_UNDEF, LIT_UNDEF, MAX_VARS,
};

verus! {

/// The reason value of a variable that was decided or is unassigned.
pub const REASON_UNDEF: u32 = 0xffff_ffffu32;

pub struct Clause {
    pub lits: Vec<Lit>,
    pub learnt: bool,
    pub lbd: u32,
}

/// A clause is either removed (no literals) or has at least two literals,
/// all over variables below `nv`, no variable twice.
pub open spec fn clause_wf(lits: Seq<Lit>, nv: int) -> bool {
    lits.len() == 0 || (lits.len() >= 2 && forall|k: int| 0 <= k < lits.len() ==> #[trigger] lits[k] < 2 * nv)
        && distinct_vars(lits)
}

pub open spec fn distinct_vars(lits: Seq<Lit>) -> bool {
    forall|a: int, b: int|
        0 <= a < lits.len() && 0 <= b < lits.len() && a != b ==> var_of(lits[a] as int) != var_of(
            lits[b] as int,
        )
}

pub struct Solver {
    num_vars: u32,
    num_original_clauses: usize,
    clauses: Vec<Clause>,
    /// For each literal `x`, the clauses watching the complement of `x`
    /// (to be visited when `x` becomes true), each with a blocker literal.
    watches: Vec<Vec<(usize, Lit)>>,
    assigns: Vec<u8>,
    level: Vec<u32>,
    reason: Vec<u32>,
    trail: Vec<Lit>,
    trail_lim: Vec<usize>,
    qhead: usize,
    heap: VarHeap,
    decisions: u64,
    propagations: u64,
    seen: Vec<bool>,
    analyze_toclear: Vec<Var>,
    /// Some input clause had every literal false at level 0 when it was
    /// added, so the input clauses have no model.
    refuted: bool,
    /// The trail positions below this one have had every clause watching
    /// their complement visited to completion.
    settled: Ghost<int>,
    /// The input clauses added so far, as given.
    formula: Ghost<Seq<Seq<Lit>>>,
    /// For each input clause, whether it was dropped for having every
    /// literal false at level 0 when it was added.
    dropped: Ghost<Seq<bool>>,
    /// Every variable has been put in the decision heap: the search has
    /// started.
    heap_filled: Ghost<bool>,
}

impl Solver {
    pub closed spec fn nv(&self) -> int {
        self.num_vars as int
    }

    pub closed spec fn value(&self, l: int) -> u8 {
        lit_value(self.assigns@, l)
    }

    pub closed spec fn is_true(&self, l: int) -> bool {
        self.value(l) == LBOOL_TRUE
    }

    pub closed spec fn is_false(&self, l: int) -> bool {
        self.value(l) == LBOOL_FALSE
    }

    pub closed spec fn assigns_view(&self) -> Seq<u8> {
        self.assigns@
    }

    /// The clause database and the variable count are those of `other`.
    pub closed spec fn same_db(&self, other: Solver) -> bool {
        &&& self.clauses@ == other.clauses@
        &&& self.watches@ == other.watches@
        &&& self.num_vars == other.num_vars
        &&& self.num_original_clauses == other.num_original_clauses
    }

    pub closed spec fn assigned(&self, v: int) -> bool {
        self.assigns@[v] != LBOOL_UNDEF
    }

    /// The assigned literals in the order they were assigned.
    pub closed spec fn trail_view(&self) -> Seq<Lit> {
        self.trail@
    }

    /// Trail positions at which each decision level starts.
    pub closed spec fn trail_lim_view(&self) -> Seq<usize> {
        self.trail_lim@
    }

    pub closed spec fn dlevel(&self) -> int {
        self.trail_lim@.len() as int
    }

    pub closed spec fn level_of(&self, v: int) -> int {
        self.level@[v] as int
    }

    pub closed spec fn reason_of(&self, v: int) -> u32 {
        self.reason@[v]
    }

    pub closed spec fn qhead_view(&self) -> int {
        self.qhead as int
    }

    pub closed spec fn clause_lits(&self, cr: int) -> Seq<Lit> {
        self.clauses@[cr].lits@
    }

    pub closed spec fn clause_learnt(&self, cr: int) -> bool {
        self.clauses@[cr].learnt
    }

    pub closed spec fn clause_lbd(&self, cr: int) -> u32 {
        self.clauses@[cr].lbd
    }

    pub closed spec fn num_clauses(&self) -> int {
        self.clauses@.len() as int
    }

    pub closed spec fn live(&self, cr: int) -> bool {
        0 <= cr < self.clauses@.len() && self.clauses@[cr].lits@.len() >= 2
    }

    pub closed spec fn heap_view(&self) -> VarHeap {
        self.heap
    }

    pub closed spec fn watch_list(&self, x: int) -> Seq<(usize, Lit)> {
        self.watches@[x]@
    }

    pub closed spec fn original_clauses(&self) -> int {
        self.num_original_clauses as int
    }

    // ------------------------------------------------------------------
    // Invariant
    // ------------------------------------------------------------------
    pub closed spec fn inv_sizes(&self) -> bool {
        let nv = self.nv();
        &&& self.num_vars <= MAX_VARS
        &&& self.assigns@.len() == nv
        &&& self.level@.len() == nv
        &&& self.reason@.len() == nv
        &&& self.seen@.len() == nv
        &&& self.watches@.len() == 2 * nv
        &&& self.heap.wf()
        &&& self.heap.num_vars() == nv
        &&& self.clauses@.len() < REASON_UNDEF
        &&& forall|v: int| 0 <= v < nv ==> #[trigger] self.assigns@[v] <= 2
    }

    pub closed spec fn inv_clauses(&self) -> bool {
        forall|cr: int| 0 <= cr < self.clauses@.len() ==> clause_wf(#[trigger] self.clauses@[cr].lits@, self.nv())
    }

    /// The watch lists as sequences.
    pub closed spec fn wview(&self) -> Seq<Seq<(usize, Lit)>> {
        self.watches@.map_values(|w: Vec<(usize, Lit)>| w@)
    }

    /// Each watch entry names a live clause that watches the complement of
    /// the list's literal, and a clause appears at most once in a list.
    pub closed spec fn watches_ok(&self, ws: Seq<Seq<(usize, Lit)>>) -> bool {
        &&& ws.len() == 2 * self.nv()
        &&& forall|x: int, j: int|
            0 <= x < ws.len() && 0 <= j < ws[x].len() ==> #[trigger] self.entry_ok(x, ws[x][j])
        &&& forall|x: int, j1: int, j2: int|
            0 <= x < ws.len() && 0 <= j1 < ws[x].len() && 0 <= j2 < ws[x].len() && j1 != j2
                ==> #[trigger] ws[x][j1].0 != #[trigger] ws[x][j2].0
    }

    pub closed spec fn inv_watches(&self) -> bool {
        self.watches_ok(self.wview())
    }

    pub closed spec fn entry_ok(&self, x: int, e: (usize, Lit)) -> bool {
        let cr = e.0 as int;
        &&& self.live(cr)
        &&& (e.1 as int) < 2 * self.nv()
        &&& (x == neg_of(self.clauses@[cr].lits@[0] as int) || x == neg_of(
            self.clauses@[cr].lits@[1] as int,
        ))
    }

    /// The literal at trail position `i` belongs to decision level `l`.
    pub closed spec fn at_level(&self, i: int, l: int) -> bool {
        &&& 0 <= l <= self.trail_lim@.len()
        &&& (l == 0 || self.trail_lim@[l - 1] <= i)
        &&& (l == self.trail_lim@.len() || i < self.trail_lim@[l])
    }

    /// The literal at trail position `i` is justified by its reason: a
    /// decision (or a level-0 fact) has none, and an implied literal comes
    /// first in a live clause whose other literals were falsified earlier.
    pub closed spec fn reason_ok(&self, i: int) -> bool {
        let v = var_of(self.trail@[i] as int);
        let r = self.reason@[v];
        if r == REASON_UNDEF {
            self.level@[v] == 0 || i == self.trail_lim@[self.level@[v] - 1]
        } else {
            &&& self.live(r as int)
            &&& self.clauses@[r as int].lits@[0] == self.trail@[i]
            &&& forall|k: int|
                1 <= k < self.clauses@[r as int].lits@.len() ==> #[trigger] self.falsified_before(
                    self.clauses@[r as int].lits@[k] as int,
                    i,
                )
        }
    }

    /// Literal `l` is false, made so at a trail position before `i`.
    pub closed spec fn falsified_before(&self, l: int, i: int) -> bool {
        exists|j: int| 0 <= j < i && self.trail@[j] as int == neg_of(l)
    }

    /// The trail lists exactly the assigned variables, each once and true,
    /// grouped by decision level, each literal justified by its reason.  With
    /// `strict` false the newest level may still be empty (a decision about
    /// to be made).
    pub closed spec fn inv_trail_gen(&self, strict: bool) -> bool {
        let nv = self.nv();
        let t = self.trail@;
        let tl = self.trail_lim@;
        &&& t.len() <= nv
        &&& forall|i: int| 0 <= i < t.len() ==> (#[trigger] t[i]) < 2 * nv && self.is_true(t[i] as int)
        &&& forall|i: int, j: int|
            0 <= i < t.len() && 0 <= j < t.len() && i != j ==> var_of(#[trigger] t[i] as int) != var_of(
                #[trigger] t[j] as int,
            )
        &&& forall|v: int|
            0 <= v < nv && #[trigger] self.assigns@[v] != LBOOL_UNDEF ==> exists|i: int|
                0 <= i < t.len() && var_of(#[trigger] t[i] as int) == v
        &&& forall|k: int| 0 <= k < tl.len() ==> #[trigger] tl[k] <= t.len()
        &&& (strict && tl.len() > 0) ==> tl.last() < t.len()
        &&& forall|a: int, b: int| 0 <= a < b < tl.len() ==> #[trigger] tl[a] < #[trigger] tl[b]
        &&& self.qhead <= t.len()
        &&& tl.len() > 0 ==> tl.last() <= self.qhead
        &&& forall|i: int| 0 <= i < t.len() ==> #[trigger] self.at_level(i, self.level@[var_of(t[i] as int)] as int)
        &&& forall|i: int| 0 <= i < t.len() ==> #[trigger] self.reason_ok(i)
    }

    pub closed spec fn inv_trail(&self) -> bool {
        self.inv_trail_gen(true)
    }

    pub closed spec fn inv_heap(&self) -> bool {
        self.heap_filled@ ==> forall|v: Var|
            v < self.nv() && !self.assigned(v as int) ==> #[trigger] self.heap.contents().contains(v)
    }

    /// The decision heap has been filled: every unassigned variable is in it.
    pub closed spec fn heap_ready(&self) -> bool {
        self.heap_filled@
    }

    pub closed spec fn inv_seen(&self) -> bool {
        forall|v: int| 0 <= v < self.nv() ==> !#[trigger] self.seen@[v]
    }

    /// The solver's data structures are consistent.
    pub closed spec fn inv(&self) -> bool {
        &&& self.inv_sizes()
        &&& self.inv_clauses()
        &&& self.inv_watches()
        &&& self.inv_trail()
        &&& self.inv_heap()
        &&& self.inv_seen()
    }

    /// As `inv`, but the newest decision level may be empty.
    pub closed spec fn inv_pending(&self) -> bool {
        &&& self.inv_sizes()
        &&& self.inv_clauses()
        &&& self.inv_watches()
        &&& self.inv_trail_gen(false)
        &&& self.inv_heap()
        &&& self.inv_seen()
    }

    /// Clause `c` has an entry in the lists `ws` of both its watched literals.
    pub closed spec fn listed(&self, ws: Seq<Seq<(usize, Lit)>>, c: int) -> bool {
        let l = self.clauses@[c].lits@;
        &&& exists|j: int| 0 <= j < ws[neg_of(l[0] as int)].len() && (#[trigger] ws[neg_of(l[0] as int)][j]).0 == c
        &&& exists|j: int| 0 <= j < ws[neg_of(l[1] as int)].len() && (#[trigger] ws[neg_of(l[1] as int)][j]).0 == c
    }

    /// Every live clause is listed under both its watched literals.
    pub closed spec fn complete(&self, ws: Seq<Seq<(usize, Lit)>>) -> bool {
        forall|c: int| #[trigger] self.live(c) ==> self.listed(ws, c)
    }

    /// The blocker of every watch entry is a literal of its clause.
    pub closed spec fn blockers_ok(&self, ws: Seq<Seq<(usize, Lit)>>) -> bool {
        forall|x: int, j: int|
            0 <= x < ws.len() && 0 <= j < ws[x].len() ==> #[trigger] self.clauses@[ws[x][j].0 as int].lits@.contains(
                ws[x][j].1,
            )
    }

    /// Some literal of clause `c` is true.
    pub closed spec fn has_true(&self, c: int) -> bool {
        exists|k: int| 0 <= k < self.clauses@[c].lits@.len() && #[trigger] self.is_true(self.clauses@[c].lits@[k] as int)
    }

    /// Each watched literal of clause `c` that was falsified before trail
    /// position `s` is made up for by a true literal of `c` assigned at its
    /// level or below.
    pub closed spec fn settled_clause(&self, c: int, s: int) -> bool {
        let l = self.clauses@[c].lits@;
        &&& self.falsified_before(l[0] as int, s) ==> self.true_upto(c, self.level@[var_of(l[0] as int)] as int)
        &&& self.falsified_before(l[1] as int, s) ==> self.true_upto(c, self.level@[var_of(l[1] as int)] as int)
    }

    /// Clause `c` has a true literal assigned at level `lv` or below.
    pub closed spec fn true_upto(&self, c: int, lv: int) -> bool {
        exists|k: int|
            0 <= k < self.clauses@[c].lits@.len() && #[trigger] self.is_true(self.clauses@[c].lits@[k] as int)
                && self.level@[var_of(self.clauses@[c].lits@[k] as int)] <= lv
    }

    pub closed spec fn settled_upto(&self, s: int) -> bool {
        forall|c: int| #[trigger] self.live(c) ==> self.settled_clause(c, s)
    }

    /// Every live clause but `x` is settled up to `s`.
    pub closed spec fn settled_upto_except(&self, s: int, x: int) -> bool {
        forall|c: int| #[trigger] self.live(c) && c != x ==> self.settled_clause(c, s)
    }

    /// The watch invariant, except that clause `x` need not be settled: the
    /// state right after a learnt clause is stored and before its first
    /// literal is asserted.
    pub closed spec fn inv_watch_except(&self, x: int) -> bool {
        &&& self.complete(self.wview())
        &&& self.blockers_ok(self.wview())
        &&& 0 <= self.settled@ <= self.qhead
        &&& self.trail_lim@.len() > 0 ==> self.trail_lim@.last() <= self.settled@
        &&& self.settled_upto_except(self.settled@, x)
    }

    /// The watch invariant: every live clause is listed under its watched
    /// literals, and up to the settled trail position (which covers all
    /// lower decision levels) no clause has both watched literals false
    /// without a true literal to make up for them.
    pub closed spec fn inv_watch(&self) -> bool {
        &&& self.complete(self.wview())
        &&& self.blockers_ok(self.wview())
        &&& 0 <= self.settled@ <= self.qhead
        &&& self.trail_lim@.len() > 0 ==> self.trail_lim@.last() <= self.settled@
        &&& self.settled_upto(self.settled@)
    }

    /// The input clauses added so far.
    pub closed spec fn formula(&self) -> Seq<Seq<Lit>> {
        self.formula@
    }

    /// Soundness: every clause of the database, and every literal assigned
    /// at level 0, follows from the input clauses; and every input clause
    /// that was not dropped is held by the database.
    pub closed spec fn inv_sound(&self) -> bool {
        &&& self.sound_core()
        &&& self.inputs_held()
        &&& self.dropped@.len() == self.formula@.len()
    }

    /// The flag `refuted` tells whether some input clause was dropped for
    /// having every literal false at level 0 when it was added.
    pub closed spec fn refuted_ok(&self) -> bool {
        self.refuted == !self.none_dropped()
    }

    /// Every clause of the database, and every literal assigned at level 0,
    /// follows from the input clauses.
    pub closed spec fn sound_core(&self) -> bool {
        &&& forall|c: int| #[trigger] self.live(c) ==> implies_clause(self.formula@, self.nv(), self.clauses@[c].lits@)
        &&& forall|i: int|
            0 <= i < self.trail@.len() && self.level@[var_of(self.trail@[i] as int)] == 0 ==> implies_clause(
                self.formula@,
                self.nv(),
                seq![#[trigger] self.trail@[i]],
            )
    }

    /// Literal `l` was made false at level 0: its complement is on the
    /// trail at level 0.
    pub closed spec fn false_at_root(&self, l: Lit) -> bool {
        exists|j: int|
            0 <= j < self.trail@.len() && self.level@[var_of(self.trail@[j] as int)] == 0 && #[trigger] self.trail@[j]
                as int == neg_of(l as int)
    }

    /// Every literal of `c` was made false at level 0.
    pub closed spec fn root_false(&self, c: Seq<Lit>) -> bool {
        forall|k: int| 0 <= k < c.len() ==> #[trigger] self.false_at_root(c[k])
    }

    /// Which input clauses were dropped for being false at level 0.
    pub closed spec fn dropped(&self) -> Seq<bool> {
        self.dropped@
    }

    /// Input clause `c` is held: it is a tautology, or one of its literals
    /// was assigned true at level 0, or a stored input clause has only
    /// literals of `c`.
    pub closed spec fn held_input(&self, c: Seq<Lit>) -> bool {
        ||| tautology(c)
        ||| exists|j: int|
            0 <= j < self.trail@.len() && self.level@[var_of(self.trail@[j] as int)] == 0 && c.contains(
                #[trigger] self.trail@[j],
            )
        ||| exists|cr: int|
            #[trigger] self.live(cr) && !self.clauses@[cr].learnt && self.clauses@[cr].lits@.to_set().subset_of(
                c.to_set(),
            )
    }

    /// Every input clause classified so far is held, or was dropped with
    /// every literal false at level 0.
    pub closed spec fn inputs_held(&self) -> bool {
        &&& self.dropped@.len() <= self.formula@.len()
        &&& forall|i: int|
            0 <= i < self.dropped@.len() ==> if #[trigger] self.dropped@[i] {
                self.root_false(self.formula@[i])
            } else {
                self.held_input(self.formula@[i])
            }
    }

    /// Every trail literal below the propagation pointer has been settled.
    pub closed spec fn settled(&self) -> bool {
        self.settled@ == self.qhead
    }

    /// As `inv_pending`, but the unassigned variable `x` may be missing
    /// from the heap.
    pub closed spec fn inv_pending_except(&self, x: int) -> bool {
        &&& self.inv_sizes()
        &&& self.inv_clauses()
        &&& self.inv_watches()
        &&& self.inv_trail_gen(false)
        &&& self.inv_seen()
        &&& self.heap_filled@ ==> forall|v: Var|
            v < self.nv() && v != x && !self.assigned(v as int) ==> #[trigger] self.heap.contents().contains(v)
    }

    /// What a new trail literal `lit` with reason `r` needs: a decision must
    /// open the newest level (or be at level 0); an implied literal must come
    /// first in a live clause whose other literals are already false.
    pub closed spec fn can_enqueue(&self, lit: int, r: u32) -> bool {
        &&& 0 <= lit < 2 * self.nv()
        &&& !self.assigned(var_of(lit))
        &&& if r == REASON_UNDEF {
            self.trail_lim@.len() == 0 || self.trail_lim@.last() == self.trail@.len()
        } else {
            &&& self.live(r as int)
            &&& self.clauses@[r as int].lits@[0] == lit
            &&& forall|k: int|
                1 <= k < self.clauses@[r as int].lits@.len() ==> #[trigger] self.falsified_before(
                    self.clauses@[r as int].lits@[k] as int,
                    self.trail@.len() as int,
                )
        }
    }

    /// Assigns `lit` true at the current decision level with reason `r`.
    fn enqueue(&mut self, lit: Lit, r: u32)
        requires
            old(self).inv_pending_except(var_of(lit as int)),
            old(self).can_enqueue(lit as int, r),
        ensures
            final(self).refuted == old(self).refuted,
            final(self).inv(),
            final(self).trail@ == old(self).trail@.push(lit),
            final(self).assigns@ == old(self).assigns@.update(
                var_of(lit as int),
                if is_pos(lit as int) {
                    LBOOL_TRUE
                } else {
                    LBOOL_FALSE
                },
            ),
            final(self).level@ == old(self).level@.update(var_of(lit as int), old(self).trail_lim@.len() as u32),
            final(self).reason@ == old(self).reason@.update(var_of(lit as int), r),
            final(self).trail_lim@ == old(self).trail_lim@,
            final(self).qhead == old(self).qhead,
            final(self).clauses@ == old(self).clauses@,
            final(self).watches@ == old(self).watches@,
            final(self).heap == old(self).heap,
            final(self).heap_filled == old(self).heap_filled,
            final(self).seen@ == old(self).seen@,
            final(self).num_vars == old(self).num_vars,
            final(self).num_original_clauses == old(self).num_original_clauses,
            final(self).decisions == old(self).decisions,
            final(self).propagations == old(self).propagations,
            final(self).settled == old(self).settled,
            final(self).is_true(lit as int),
            forall|s: int| 0 <= s <= old(self).trail@.len() && #[trigger] old(self).settled_upto(s) ==> final(self).settled_upto(s),
            old(self).inv_watch() ==> final(self).inv_watch(),
            forall|x: int| #[trigger] old(self).inv_watch_except(x) ==> final(self).inv_watch_except(x),
            final(self).formula == old(self).formula,
            final(self).dropped == old(self).dropped,
            old(self).sound_core() && (old(self).trail_lim@.len() > 0 || implies_clause(
                old(self).formula@,
                old(self).nv(),
                seq![lit],
            )) ==> final(self).sound_core(),
            old(self).inputs_held() ==> final(self).inputs_held(),
    {
        let var = lit_var(lit);
        proof {
            self.lemma_dlevel_bound_pending();
        }
        let d = self.trail_lim.len() as u32;
        let val = if lit_sign(lit) {
            LBOOL_TRUE
        } else {
            LBOOL_FALSE
        };
        self.assigns.set(var as usize, val);
        self.level.set(var as usize, d);
        self.reason.set(var as usize, r);
        self.trail.push(lit);
        proof {
            self.lemma_enqueue_inv(*old(self), lit as int, r);
            let pre = *old(self);
            assert(self.trail@.subrange(0, pre.trail@.len() as int) =~= pre.trail@);
            assert forall|s: int| 0 <= s <= pre.trail@.len() && #[trigger] pre.settled_upto(s) implies self.settled_upto(s) by {
                self.lemma_settled_frame(pre, s);
            }
            if pre.inv_watch() {
                assert(self.wview() == pre.wview());
                self.lemma_complete_frame(pre, self.wview());
                self.lemma_settled_frame(pre, pre.settled@);
            }
            assert forall|x: int| #[trigger] pre.inv_watch_except(x) implies self.inv_watch_except(x) by {
                assert(self.wview() == pre.wview());
                self.lemma_complete_frame(pre, self.wview());
                self.lemma_settled_frame_except(pre, pre.settled@, x);
            }
            if pre.sound_core() && (pre.trail_lim@.len() > 0 || implies_clause(pre.formula@, pre.nv(), seq![lit])) {
                assert forall|c: int| #[trigger] self.live(c) implies implies_clause(self.formula@, self.nv(), self.clauses@[c].lits@) by {
                    assert(pre.live(c));
                }
                assert forall|i: int|
                    0 <= i < self.trail@.len() && self.level@[var_of(self.trail@[i] as int)] == 0 implies implies_clause(
                    self.formula@,
                    self.nv(),
                    seq![#[trigger] self.trail@[i]],
                ) by {
                    if i < pre.trail@.len() {
                        assert(self.trail@[i] == pre.trail@[i]);
                        assert(pre.is_true(pre.trail@[i] as int));
                        assert(var_of(pre.trail@[i] as int) != var_of(lit as int));
                    }
                }
            }
            if pre.inputs_held() {
                assert forall|j: int|
                    #![trigger pre.trail@[j]]
                    0 <= j < pre.trail@.len() && pre.level@[var_of(pre.trail@[j] as int)] == 0 implies j
                    < self.trail@.len() && self.trail@[j] == pre.trail@[j] && self.level@[var_of(
                    pre.trail@[j] as int,
                )] == 0 by {
                    assert(self.trail@[j] == pre.trail@[j]);
                    assert(pre.is_true(pre.trail@[j] as int));
                    assert(var_of(pre.trail@[j] as int) != var_of(lit as int));
                }
                assert forall|cr: int| #[trigger] pre.live(cr) && !pre.clauses@[cr].learnt implies self.live(cr)
                    && !self.clauses@[cr].learnt && self.clauses@[cr].lits@.to_set() == pre.clauses@[cr].lits@.to_set() by {}
                self.lemma_held_frame(pre);
            }
        }
    }

    // ------------------------------------------------------------------
    // Construction and small helpers
    // ------------------------------------------------------------------
    /// A solver over `num_vars` variables with no clauses and nothing assigned.
    pub fn new(num_vars: u32) -> (s: Self)
        requires
            num_vars <= MAX_VARS,
        ensures
            s.inv(),
            s.nv() == num_vars,
            s.num_clauses() == 0,
            s.trail_view() == Seq::<Lit>::empty(),
            s.dlevel() == 0,
            forall|v: int| 0 <= v < num_vars ==> !#[trigger] s.assigned(v),
            s.inv_watch(),
            s.settled(),
            s.inv_sound(),
            s.formula() == Seq::<Seq<Lit>>::empty(),
            s.dropped() == Seq::<bool>::empty(),
            s.none_dropped(),
            s.refuted_ok(),
            !s.heap_ready(),
            s.heap_view().contents() == Set::<Var>::empty(),
            forall|v: int| 0 <= v < num_vars ==> #[trigger] s.heap_view().keys()[v] == 0,
            s.decisions_made() == 0,
            s.propagations_done() == 0,
            s.qhead_view() == 0,
            s.original_clauses() == 0,
            forall|v: int| 0 <= v < num_vars ==> #[trigger] s.reason_of(v) == REASON_UNDEF && s.level_of(v) == 0,
            forall|x: int| 0 <= x < 2 * num_vars ==> #[trigger] s.watch_list(x).len() == 0,
    {
        let nv = num_vars as usize;
        let nl = 2 * nv;
        let mut watches: Vec<Vec<(usize, Lit)>> = Vec::new();
        let mut k: usize = 0;
        while k < nl
            invariant
                k <= nl,
                watches@.len() == k,
                forall|x: int| 0 <= x < k ==> (#[trigger] watches@[x])@.len() == 0,
            decreases nl - k,
        {
            watches.push(Vec::new());
            k = k + 1;
        }
        let mut assigns: Vec<u8> = Vec::new();
        let mut level: Vec<u32> = Vec::new();
        let mut reason: Vec<u32> = Vec::new();
        let mut seen: Vec<bool> = Vec::new();
        let mut k: usize = 0;
        while k < nv
            invariant
                k <= nv,
                assigns@.len() == k,
                level@.len() == k,
                reason@.len() == k,
                seen@.len() == k,
                forall|v: int| 0 <= v < k ==> #[trigger] assigns@[v] == LBOOL_UNDEF,
                forall|v: int| 0 <= v < k ==> !#[trigger] seen@[v],
                forall|v: int| 0 <= v < k ==> #[trigger] reason@[v] == REASON_UNDEF,
                forall|v: int| 0 <= v < k ==> #[trigger] level@[v] == 0,
            decreases nv - k,
        {
            assigns.push(LBOOL_UNDEF);
            level.push(0);
            reason.push(REASON_UNDEF);
            seen.push(false);
            k = k + 1;
        }
        let heap = VarHeap::new(num_vars);
        let s = Solver {
            num_vars,
            num_original_clauses: 0,
            clauses: Vec::new(),
            watches,
            assigns,
            level,
            reason,
            trail: Vec::new(),
            trail_lim: Vec::new(),
            qhead: 0,
            heap,
            decisions: 0,
            propagations: 0,
            seen,
            analyze_toclear: Vec::new(),
            refuted: false,
            settled: Ghost(0),
            formula: Ghost(Seq::empty()),
            dropped: Ghost(Seq::empty()),
            heap_filled: Ghost(false),
        };
        proof {
            assert forall|v: int| 0 <= v < s.nv() && #[trigger] s.assigns@[v] != LBOOL_UNDEF implies exists|i: int|
                0 <= i < s.trail@.len() && var_of(#[trigger] s.trail@[i] as int) == v by {}
            assert forall|x: int| 0 <= x < 2 * num_vars implies #[trigger] s.watch_list(x).len() == 0 by {
                assert(s.watches@[x]@.len() == 0);
            }
        }
        s
    }

    pub fn decision_level(&self) -> (r: u32)
        requires
            self.inv(),
        ensures
            r == self.dlevel(),
    {
        proof {
            self.lemma_dlevel_bound();
        }
        self.trail_lim.len() as u32
    }

    /// `self` is `pre` with every assignment above decision level `level`
    /// undone: the trail cut where that level ended, the later levels
    /// dropped, and everything left on the trail kept as it was.
    pub closed spec fn cancelled_from(&self, pre: Solver, level: int) -> bool {
        let limit = pre.trail_lim@[level] as int;
        &&& self.trail@ == pre.trail@.subrange(0, limit)
        &&& self.trail_lim@ == pre.trail_lim@.subrange(0, level)
        &&& self.qhead == limit
        &&& forall|v: int|
            0 <= v < pre.nv() ==> #[trigger] self.assigns@[v] == if (exists|i: int|
                limit <= i < pre.trail@.len() && var_of(pre.trail@[i] as int) == v) {
                LBOOL_UNDEF
            } else {
                pre.assigns@[v]
            }
        &&& forall|v: int|
            0 <= v < pre.nv() && self.assigned(v) ==> #[trigger] self.level@[v] == pre.level@[v] && self.reason@[v]
                == pre.reason@[v]
        &&& forall|v: int|
            0 <= v < pre.nv() && !self.assigned(v) ==> #[trigger] self.reason@[v] == REASON_UNDEF || !pre.assigned(v)
    }

    /// `cancelled_from` over the public views: the trail is cut where level
    /// `level` ended, the later levels are dropped, the variables assigned
    /// there become unassigned with no reason, and every other variable keeps
    /// its value, level and reason.
    pub open spec fn undone_above(&self, pre: Solver, level: int) -> bool {
        let limit = pre.trail_lim_view()[level] as int;
        &&& self.trail_view() == pre.trail_view().subrange(0, limit)
        &&& self.trail_lim_view() == pre.trail_lim_view().subrange(0, level)
        &&& self.qhead_view() == limit
        &&& forall|v: int|
            0 <= v < pre.nv() ==> (#[trigger] self.assigned(v) <==> pre.assigned(v) && !exists|i: int|
                limit <= i < pre.trail_view().len() && var_of(pre.trail_view()[i] as int) == v)
        &&& forall|v: int|
            0 <= v < pre.nv() && #[trigger] self.assigned(v) ==> self.assigns_view()[v] == pre.assigns_view()[v]
                && self.level_of(v) == pre.level_of(v) && self.reason_of(v) == pre.reason_of(v)
        &&& forall|v: int|
            0 <= v < pre.nv() && pre.assigned(v) && !#[trigger] self.assigned(v) ==> self.reason_of(v)
                == REASON_UNDEF
    }

    /// Undoes every assignment above decision level `level`.
    pub fn cancel_until(&mut self, level: u32)
        requires
            old(self).inv(),
            old(self).inv_watch(),
            old(self).inv_sound(),
        ensures
            final(self).refuted_ok() == old(self).refuted_ok(),
            final(self).inv(),
            final(self).inv_watch(),
            final(self).inv_sound(),
            final(self).formula() == old(self).formula(),
            final(self).dropped() == old(self).dropped(),
            final(self).heap_ready() == old(self).heap_ready(),
            final(self).same_db(*old(self)),
            final(self).heap_view().keys() == old(self).heap_view().keys(),
            old(self).dlevel() <= level ==> *final(self) == *old(self),
            old(self).dlevel() > level ==> final(self).cancelled_from(*old(self), level as int) && final(self).settled(),
            old(self).dlevel() > level ==> final(self).undone_above(*old(self), level as int),
    {
        if self.trail_lim.len() as u64 <= level as u64 {
            return;
        }
        let limit = self.trail_lim[level as usize];
        let mut i = self.trail.len();
        let ghost t = self.trail@;
        while i > limit
            invariant
                self.refuted == old(self).refuted,
                limit <= i <= t.len(),
                self.trail@ == t,
                self.trail@ == old(self).trail@,
                self.trail_lim@ == old(self).trail_lim@,
                self.clauses@ == old(self).clauses@,
                self.watches@ == old(self).watches@,
                self.seen@ == old(self).seen@,
                self.level@ == old(self).level@,
                self.num_vars == old(self).num_vars,
                self.num_original_clauses == old(self).num_original_clauses,
                self.qhead == old(self).qhead,
                self.formula == old(self).formula,
                self.dropped == old(self).dropped,
                self.heap_filled == old(self).heap_filled,
                self.assigns@.len() == old(self).assigns@.len(),
                self.reason@.len() == old(self).reason@.len(),
                old(self).inv(),
                limit == old(self).trail_lim@[level as int],
                (level as int) < old(self).trail_lim@.len(),
                self.heap.wf(),
                self.heap.num_vars() == old(self).nv(),
                self.heap.keys() == old(self).heap.keys(),
                forall|v: int|
                    0 <= v < old(self).nv() ==> #[trigger] self.assigns@[v] == if (exists|k: int|
                        i <= k < t.len() && var_of(t[k] as int) == v) {
                        LBOOL_UNDEF
                    } else {
                        old(self).assigns@[v]
                    },
                forall|v: int|
                    0 <= v < old(self).nv() && self.assigns@[v] != LBOOL_UNDEF ==> #[trigger] self.reason@[v]
                        == old(self).reason@[v],
                forall|v: int|
                    0 <= v < old(self).nv() && self.assigns@[v] == LBOOL_UNDEF ==> #[trigger] self.reason@[v] == REASON_UNDEF
                        || old(self).assigns@[v] == LBOOL_UNDEF,
                old(self).heap_filled@ ==> forall|u: Var|
                    u < old(self).nv() && self.assigns@[u as int] == LBOOL_UNDEF ==> #[trigger] self.heap.contents().contains(u),
            decreases i,
        {
            i = i - 1;
            let var = lit_var(self.trail[i]);
            proof {
                assert(t[i as int] < 2 * old(self).nv());
            }
            self.assigns.set(var as usize, LBOOL_UNDEF);
            self.reason.set(var as usize, REASON_UNDEF);
            self.heap.insert(var);
            proof {
                assert forall|v: int|
                    0 <= v < old(self).nv() implies #[trigger] self.assigns@[v] == if (exists|k: int|
                        i <= k < t.len() && var_of(t[k] as int) == v) {
                        LBOOL_UNDEF
                    } else {
                        old(self).assigns@[v]
                    } by {
                    if v == var {
                        assert(var_of(t[i as int] as int) == v);
                    } else {
                        if exists|k: int| i <= k < t.len() && var_of(t[k] as int) == v {
                            let k = choose|k: int| i <= k < t.len() && var_of(t[k] as int) == v;
                            assert(k != i);
                        }
                    }
                }
            }
        }
        self.trail.truncate(limit);
        self.trail_lim.truncate(level as usize);
        self.qhead = self.trail.len();
        self.settled = Ghost(limit as int);
        proof {
            self.lemma_cancel_inv(*old(self), level as int);
            assert forall|v: int|
                0 <= v < old(self).nv() && self.assigned(v) implies #[trigger] self.level_of(v) == old(
                self,
            ).level_of(v) && self.reason_of(v) == old(self).reason_of(v) by {
                assert(self.assigns@[v] != LBOOL_UNDEF);
            }
            assert(self.trail@ == t.subrange(0, limit as int));
            assert(self.trail_lim@ == old(self).trail_lim@.subrange(0, level as int));
            assert(self.qhead == limit);
            self.lemma_cancel_watch(*old(self), level as int);
            let pre = *old(self);
            assert forall|c: int| #[trigger] self.live(c) implies implies_clause(self.formula@, self.nv(), self.clauses@[c].lits@) by {
                assert(pre.live(c));
            }
            assert forall|i: int|
                0 <= i < self.trail@.len() && self.level@[var_of(self.trail@[i] as int)] == 0 implies implies_clause(
                self.formula@,
                self.nv(),
                seq![#[trigger] self.trail@[i]],
            ) by {
                assert(self.trail@[i] == pre.trail@[i]);
                assert(self.is_true(self.trail@[i] as int));
                assert(self.assigned(var_of(self.trail@[i] as int)));
            }
            assert forall|j: int|
                #![trigger pre.trail@[j]]
                0 <= j < pre.trail@.len() && pre.level@[var_of(pre.trail@[j] as int)] == 0 implies j < self.trail@.len()
                && self.trail@[j] == pre.trail@[j] && self.level@[var_of(pre.trail@[j] as int)] == 0 by {
                assert(pre.at_level(j, 0));
                assert(pre.trail_lim@[0] <= pre.trail_lim@[level as int]) by {
                    if level > 0 {
                        assert(pre.trail_lim@[0] < pre.trail_lim@[level as int]);
                    }
                }
                assert(self.trail@[j] == pre.trail@[j]);
                assert(self.is_true(self.trail@[j] as int));
                assert(self.assigned(var_of(self.trail@[j] as int)));
            }
            assert forall|cr: int| #[trigger] pre.live(cr) && !pre.clauses@[cr].learnt implies self.live(cr)
                && !self.clauses@[cr].learnt && self.clauses@[cr].lits@.to_set() == pre.clauses@[cr].lits@.to_set() by {}
            self.lemma_held_frame(pre);
            self.lemma_undone_above(pre, level as int);
        }
    }

    proof fn lemma_undone_above(&self, pre: Solver, level: int)
        requires
            self.cancelled_from(pre, level),
        ensures
            self.undone_above(pre, level),
    {
        let limit = pre.trail_lim@[level] as int;
        assert(pre.trail_view() == pre.trail@);
        assert forall|v: int| 0 <= v < pre.nv() implies (#[trigger] self.assigned(v) <==> pre.assigned(v)
            && !exists|i: int| limit <= i < pre.trail_view().len() && var_of(pre.trail_view()[i] as int) == v) by {
            if exists|i: int| limit <= i < pre.trail@.len() && var_of(pre.trail@[i] as int) == v {
                assert(self.assigns@[v] == LBOOL_UNDEF);
            } else {
                assert(self.assigns@[v] == pre.assigns@[v]);
            }
        }
        assert forall|v: int| 0 <= v < pre.nv() && #[trigger] self.assigned(v) implies self.assigns_view()[v]
            == pre.assigns_view()[v] && self.level_of(v) == pre.level_of(v) && self.reason_of(v) == pre.reason_of(v) by {
            if exists|i: int| limit <= i < pre.trail@.len() && var_of(pre.trail@[i] as int) == v {
                assert(self.assigns@[v] == LBOOL_UNDEF);
            } else {
                assert(self.assigns@[v] == pre.assigns@[v]);
            }
        }
    }

    /// There are no more decision levels than assigned variables.
    proof fn lemma_dlevel_bound(&self)
        requires
            self.inv_trail(),
        ensures
            self.dlevel() <= self.trail@.len() <= self.nv(),
    {
        let tl = self.trail_lim@;
        if tl.len() > 0 {
            self.lemma_lim_grows(tl.len() - 1);
        }
    }

    /// With the newest level possibly empty, there is at most one more level
    /// than assigned variables.
    proof fn lemma_dlevel_bound_pending(&self)
        requires
            self.inv_trail_gen(false),
        ensures
            self.dlevel() <= self.trail@.len() + 1,
            self.trail@.len() <= self.nv(),
    {
        let tl = self.trail_lim@;
        if tl.len() > 0 {
            self.lemma_lim_grows(tl.len() - 1);
        }
    }

    proof fn lemma_lim_grows(&self, k: int)
        requires
            self.inv_trail_gen(false),
            0 <= k < self.trail_lim@.len(),
        ensures
            self.trail_lim@[k] >= k,
        decreases k,
    {
        if k > 0 {
            self.lemma_lim_grows(k - 1);
            assert(self.trail_lim@[k - 1] < self.trail_lim@[k]);
        }
    }
}

/// A sequence of literals over distinct variables below `nv` has at most
/// `nv` entries.
pub proof fn lemma_distinct_vars_len(t: Seq<Lit>, nv: int)
    requires
        nv >= 0,
        forall|i: int| 0 <= i < t.len() ==> var_of(#[trigger] t[i] as int) < nv,
        forall|i: int, j: int|
            0 <= i < t.len() && 0 <= j < t.len() && i != j ==> var_of(#[trigger] t[i] as int) != var_of(
                #[trigger] t[j] as int,
            ),
    ensures
        t.len() <= nv,
{
    let a = t.map_values(|l: Lit| var_of(l as int));
    assert forall|i: int, j: int| 0 <= i < a.len() && 0 <= j < a.len() && i != j implies a[i] != a[j] by {
        assert(var_of(t[i] as int) != var_of(t[j] as int));
    }
    a.unique_seq_to_set();
    let r = vstd::set_lib::set_int_range(0, nv);
    vstd::set_lib::lemma_int_range(0, nv);
    assert forall|w: int| a.to_set().contains(w) implies r.contains(w) by {
        let j = choose|j: int| 0 <= j < a.len() && a[j] == w;
        assert(var_of(t[j] as int) < nv);
        assert(var_of(t[j] as int) >= 0) by {
            assert(t[j] >= 0);
        }
    }
    vstd::set_lib::lemma_len_subset(a.to_set(), r);
}

impl Solver {
    /// Watch-list validity depends only on the clauses and variable count.
    proof fn lemma_watches_ok_frame(&self, pre: Solver, ws: Seq<Seq<(usize, Lit)>>)
        requires
            pre.watches_ok(ws),
            self.clauses@ == pre.clauses@,
            self.num_vars == pre.num_vars,
        ensures
            self.watches_ok(ws),
    {
        assert forall|x: int, j: int| 0 <= x < ws.len() && 0 <= j < ws[x].len() implies #[trigger] self.entry_ok(
            x,
            ws[x][j],
        ) by {
            assert(pre.entry_ok(x, ws[x][j]));
        }
    }

    proof fn lemma_cancel_inv(&self, pre: Solver, level: int)
        requires
            pre.inv(),
            0 <= level < pre.trail_lim@.len(),
            ({
                let limit = pre.trail_lim@[level] as int;
                let t = pre.trail@;
                &&& self.trail@ == t.subrange(0, limit)
                &&& self.trail_lim@ == pre.trail_lim@.subrange(0, level)
                &&& self.qhead == limit
                &&& self.clauses@ == pre.clauses@
                &&& self.watches@ == pre.watches@
                &&& self.seen@ == pre.seen@
                &&& self.level@ == pre.level@
                &&& self.num_vars == pre.num_vars
                &&& self.assigns@.len() == pre.assigns@.len()
                &&& self.reason@.len() == pre.reason@.len()
                &&& self.heap_filled == pre.heap_filled
                &&& self.heap.wf()
                &&& self.heap.num_vars() == pre.nv()
                &&& forall|v: int|
                    0 <= v < pre.nv() ==> #[trigger] self.assigns@[v] == if (exists|k: int|
                        limit <= k < t.len() && var_of(t[k] as int) == v) {
                        LBOOL_UNDEF
                    } else {
                        pre.assigns@[v]
                    }
                &&& forall|v: int|
                    0 <= v < pre.nv() && self.assigns@[v] != LBOOL_UNDEF ==> #[trigger] self.reason@[v]
                        == pre.reason@[v]
                &&& pre.heap_filled@ ==> forall|u: Var|
                    u < pre.nv() && self.assigns@[u as int] == LBOOL_UNDEF ==> #[trigger] self.heap.contents().contains(u)
            }),
        ensures
            self.inv(),
    {
        let limit = pre.trail_lim@[level] as int;
        let t = pre.trail@;
        let tl = pre.trail_lim@;
        let t2 = self.trail@;
        let tl2 = self.trail_lim@;
        assert forall|a: int, b: int| 0 <= a <= b < tl.len() implies tl[a] <= tl[b] by {
            if a < b {
                assert(tl[a] < tl[b]);
            }
        }
        // a variable on the kept prefix keeps its value
        assert forall|i: int| 0 <= i < limit implies #[trigger] self.assigns@[var_of(t[i] as int)]
            == pre.assigns@[var_of(t[i] as int)] by {
            if exists|k: int| limit <= k < t.len() && var_of(t[k] as int) == var_of(t[i] as int) {
                let k = choose|k: int| limit <= k < t.len() && var_of(t[k] as int) == var_of(t[i] as int);
                assert(k != i);
            }
        }
        assert forall|i: int| 0 <= i < t2.len() implies (#[trigger] t2[i]) < 2 * self.nv() && self.is_true(
            t2[i] as int,
        ) by {
            assert(t2[i] == t[i]);
            assert(self.assigns@[var_of(t[i] as int)] == pre.assigns@[var_of(t[i] as int)]);
            assert(pre.is_true(t[i] as int));
        }
        assert forall|i: int, j: int|
            0 <= i < t2.len() && 0 <= j < t2.len() && i != j implies var_of(#[trigger] t2[i] as int)
            != var_of(#[trigger] t2[j] as int) by {
            assert(t2[i] == t[i] && t2[j] == t[j]);
        }
        assert forall|v: int|
            0 <= v < self.nv() && #[trigger] self.assigns@[v] != LBOOL_UNDEF implies exists|i: int|
            0 <= i < t2.len() && var_of(#[trigger] t2[i] as int) == v by {
            assert(pre.assigns@[v] != LBOOL_UNDEF);
            let i = choose|i: int| 0 <= i < t.len() && var_of(#[trigger] t[i] as int) == v;
            if i >= limit {
                assert(exists|k: int| limit <= k < t.len() && var_of(t[k] as int) == v);
            }
            assert(t2[i] == t[i]);
        }
        assert forall|i: int| 0 <= i < t2.len() implies #[trigger] self.at_level(
            i,
            self.level@[var_of(t2[i] as int)] as int,
        ) by {
            assert(t2[i] == t[i]);
            let l = pre.level@[var_of(t[i] as int)] as int;
            assert(pre.at_level(i, l));
            if l > level {
                assert(tl[l - 1] >= tl[level]);
            }
        }
        assert forall|i: int| 0 <= i < t2.len() implies #[trigger] self.reason_ok(i) by {
            assert(t2[i] == t[i]);
            assert(pre.reason_ok(i));
            let v = var_of(t[i] as int);
            assert(self.assigns@[v] != LBOOL_UNDEF) by {
                assert(self.is_true(t2[i] as int));
            }
            let r = pre.reason@[v];
            let l = pre.level@[v] as int;
            assert(pre.at_level(i, l));
            if l > level {
                assert(tl[l - 1] >= tl[level]);
            }
            if r != REASON_UNDEF {
                assert forall|k: int| 1 <= k < self.clauses@[r as int].lits@.len() implies #[trigger] self.falsified_before(
                    self.clauses@[r as int].lits@[k] as int,
                    i,
                ) by {
                    assert(pre.falsified_before(pre.clauses@[r as int].lits@[k] as int, i));
                    let j = choose|j: int| 0 <= j < i && pre.trail@[j] as int == neg_of(pre.clauses@[r as int].lits@[k] as int);
                    assert(t2[j] == t[j]);
                }
            }
        }
        self.lemma_watches_ok_frame(pre, self.wview());
        assert forall|v: int| 0 <= v < self.nv() implies #[trigger] self.assigns@[v] <= 2 by {
            assert(pre.assigns@[v] <= 2);
        }
        if level > 0 {
            assert(tl2.last() == tl[level - 1]);
            assert(tl[level - 1] < tl[level]);
        }
        assert(self.inv_sizes());
        assert(self.inv_watches());
        assert(self.inv_trail());
    }

    proof fn lemma_enqueue_inv(&self, pre: Solver, lit: int, r: u32)
        requires
            pre.inv_pending_except(var_of(lit)),
            pre.can_enqueue(lit, r),
            self.trail@ == pre.trail@.push(lit as Lit),
            self.assigns@ == pre.assigns@.update(
                var_of(lit),
                if is_pos(lit) {
                    LBOOL_TRUE
                } else {
                    LBOOL_FALSE
                },
            ),
            self.level@ == pre.level@.update(var_of(lit), pre.trail_lim@.len() as u32),
            self.reason@ == pre.reason@.update(var_of(lit), r),
            self.trail_lim@ == pre.trail_lim@,
            self.qhead == pre.qhead,
            self.clauses@ == pre.clauses@,
            self.watches@ == pre.watches@,
            self.heap == pre.heap,
            self.heap_filled == pre.heap_filled,
            self.seen@ == pre.seen@,
            self.num_vars == pre.num_vars,
        ensures
            self.inv(),
            self.is_true(lit),
    {
        let v = var_of(lit);
        let n = pre.trail@.len() as int;
        let t = self.trail@;
        pre.lemma_dlevel_bound_pending();
        assert(self.level@[v] == pre.trail_lim@.len());
        assert forall|i: int| 0 <= i < n implies var_of(#[trigger] t[i] as int) != v by {
            assert(pre.is_true(pre.trail@[i] as int));
        }
        assert((0u8 ^ 1u8) == 1u8) by (bit_vector);
        assert forall|i: int| 0 <= i < t.len() implies (#[trigger] t[i]) < 2 * self.nv() && self.is_true(
            t[i] as int,
        ) by {
            if i < n {
                assert(pre.is_true(pre.trail@[i] as int));
                assert(self.assigns@[var_of(t[i] as int)] == pre.assigns@[var_of(t[i] as int)]);
            }
        }
        assert forall|w: int|
            0 <= w < self.nv() && #[trigger] self.assigns@[w] != LBOOL_UNDEF implies exists|i: int|
            0 <= i < t.len() && var_of(#[trigger] t[i] as int) == w by {
            if w == v {
                assert(var_of(t[n] as int) == w);
            } else {
                let i = choose|i: int| 0 <= i < pre.trail@.len() && var_of(#[trigger] pre.trail@[i] as int) == w;
                assert(var_of(t[i] as int) == w);
            }
        }
        assert forall|i: int| 0 <= i < t.len() implies #[trigger] self.at_level(
            i,
            self.level@[var_of(t[i] as int)] as int,
        ) by {
            if i < n {
                assert(pre.at_level(i, pre.level@[var_of(pre.trail@[i] as int)] as int));
                assert(self.level@[var_of(t[i] as int)] == pre.level@[var_of(t[i] as int)]);
            } else {
                let d = pre.trail_lim@.len() as int;
                pre.lemma_dlevel_bound_pending();
                assert(self.level@[v] == d);
                if d > 0 {
                    assert(pre.trail_lim@[d - 1] <= n);
                }
            }
        }
        assert forall|i: int| 0 <= i < t.len() implies #[trigger] self.reason_ok(i) by {
            if i < n {
                assert(pre.reason_ok(i));
                assert(var_of(t[i] as int) != v);
                assert(self.reason@[var_of(t[i] as int)] == pre.reason@[var_of(t[i] as int)]);
                assert(self.level@[var_of(t[i] as int)] == pre.level@[var_of(t[i] as int)]);
                let rr = pre.reason@[var_of(pre.trail@[i] as int)];
                if rr != REASON_UNDEF {
                    assert forall|k: int| 1 <= k < self.clauses@[rr as int].lits@.len() implies #[trigger] self.falsified_before(
                        self.clauses@[rr as int].lits@[k] as int,
                        i,
                    ) by {
                        assert(pre.falsified_before(pre.clauses@[rr as int].lits@[k] as int, i));
                        let j = choose|j: int| 0 <= j < i && pre.trail@[j] as int == neg_of(pre.clauses@[rr as int].lits@[k] as int);
                        assert(t[j] == pre.trail@[j]);
                    }
                }
            } else {
                assert(var_of(t[i] as int) == v);
                assert(self.reason@[v] == r);
                if r != REASON_UNDEF {
                    assert forall|k: int| 1 <= k < self.clauses@[r as int].lits@.len() implies #[trigger] self.falsified_before(
                        self.clauses@[r as int].lits@[k] as int,
                        i,
                    ) by {
                        assert(pre.falsified_before(pre.clauses@[r as int].lits@[k] as int, n));
                        let j = choose|j: int| 0 <= j < n && pre.trail@[j] as int == neg_of(pre.clauses@[r as int].lits@[k] as int);
                        assert(t[j] == pre.trail@[j]);
                    }
                }
            }
        }
        if self.heap_filled@ {
            assert forall|u: Var| u < self.nv() && !self.assigned(u as int) implies #[trigger] self.heap.contents().contains(u) by {
                assert(!pre.assigned(u as int));
            }
        }
        assert(self.inv_sizes());
        assert(self.inv_clauses());
        self.lemma_watches_ok_frame(pre, self.wview());
        assert(self.inv_watches());
        let tl = self.trail_lim@;
        assert(forall|k: int| 0 <= k < tl.len() ==> #[trigger] tl[k] <= t.len());
        assert(tl.len() > 0 ==> tl.last() < t.len());
        assert(self.qhead <= t.len());
        assert forall|i: int, j: int|
            0 <= i < t.len() && 0 <= j < t.len() && i != j implies var_of(#[trigger] t[i] as int) != var_of(
            #[trigger] t[j] as int,
        ) by {
            if i < n && j < n {
                assert(var_of(pre.trail@[i] as int) != var_of(pre.trail@[j] as int));
            }
        }
        assert(forall|a: int, b: int| 0 <= a < b < tl.len() ==> #[trigger] tl[a] < #[trigger] tl[b]);
        lemma_distinct_vars_len(t, self.nv());
        assert(self.inv_heap());
        assert(self.inv_seen());
        assert(self.inv_trail());
    }
}

impl Solver {
    /// A false literal's complement is on the trail.
    proof fn lemma_false_on_trail(&self, l: int)
        requires
            self.inv_sizes(),
            self.inv_trail_gen(false),
            0 <= l < 2 * self.nv(),
            self.is_false(l),
        ensures
            self.falsified_before(l, self.trail@.len() as int),
    {
        let v = var_of(l);
        assert(self.assigns@[v] != LBOOL_UNDEF);
        let i = choose|i: int| 0 <= i < self.trail@.len() && var_of(#[trigger] self.trail@[i] as int) == v;
        let t = self.trail@[i] as int;
        assert(self.is_true(t));
        assert((0u8 ^ 1u8) == 1u8) by (bit_vector);
        assert((1u8 ^ 1u8) == 0u8) by (bit_vector);
        assert(self.assigns@[v] <= 2);
        assert(is_pos(t) != is_pos(l));
        assert(t == neg_of(l));
    }

    /// All literals of clause `cr` are false.
    pub closed spec fn conflicting(&self, cr: int) -> bool {
        &&& self.live(cr)
        &&& forall|k: int| 0 <= k < self.clauses@[cr].lits@.len() ==> #[trigger] self.is_false(
            self.clauses@[cr].lits@[k] as int,
        )
    }

    /// What `conflicting` means over the public views.
    pub proof fn lemma_conflicting_views(&self, cr: int)
        ensures
            self.conflicting(cr) <==> self.live(cr) && forall|k: int|
                0 <= k < self.clause_lits(cr).len() ==> #[trigger] self.is_false(self.clause_lits(cr)[k] as int),
    {
        let c = self.clause_lits(cr);
        assert(c == self.clauses@[cr].lits@);
        if self.conflicting(cr) {
            assert forall|k: int| 0 <= k < c.len() implies #[trigger] self.is_false(c[k] as int) by {
                assert(self.is_false(self.clauses@[cr].lits@[k] as int));
            }
        }
        if self.live(cr) && forall|k: int| 0 <= k < c.len() ==> #[trigger] self.is_false(c[k] as int) {
            assert forall|k: int| 0 <= k < self.clauses@[cr].lits@.len() implies #[trigger] self.is_false(
                self.clauses@[cr].lits@[k] as int,
            ) by {
                assert(self.is_false(c[k] as int));
            }
        }
    }

    /// Exchanges literals `a` and `b` of clause `cr`.
    fn swap_lits(&mut self, cr: usize, a: usize, b: usize)
        requires
            cr < old(self).clauses@.len(),
            a < old(self).clauses@[cr as int].lits@.len(),
            b < old(self).clauses@[cr as int].lits@.len(),
        ensures
            final(self).refuted == old(self).refuted,
            final(self).clauses@.len() == old(self).clauses@.len(),
            forall|c: int| 0 <= c < old(self).clauses@.len() && c != cr ==> #[trigger] final(self).clauses@[c] == old(self).clauses@[c],
            final(self).clauses@[cr as int].lits@ == old(self).clauses@[cr as int].lits@.update(
                a as int,
                old(self).clauses@[cr as int].lits@[b as int],
            ).update(b as int, old(self).clauses@[cr as int].lits@[a as int]),
            final(self).clauses@[cr as int].learnt == old(self).clauses@[cr as int].learnt,
            final(self).clauses@[cr as int].lbd == old(self).clauses@[cr as int].lbd,
            final(self).watches@ == old(self).watches@,
            final(self).trail@ == old(self).trail@,
            final(self).trail_lim@ == old(self).trail_lim@,
            final(self).assigns@ == old(self).assigns@,
            final(self).level@ == old(self).level@,
            final(self).reason@ == old(self).reason@,
            final(self).seen@ == old(self).seen@,
            final(self).heap == old(self).heap,
            final(self).heap_filled == old(self).heap_filled,
            final(self).qhead == old(self).qhead,
            final(self).num_vars == old(self).num_vars,
            final(self).num_original_clauses == old(self).num_original_clauses,
            final(self).propagations == old(self).propagations,
            final(self).decisions == old(self).decisions,
            final(self).settled == old(self).settled,
            final(self).formula == old(self).formula,
            final(self).dropped == old(self).dropped,
    {
        let x = self.clauses[cr].lits[a];
        let y = self.clauses[cr].lits[b];
        self.clauses[cr].lits.set(a, y);
        self.clauses[cr].lits.set(b, x);
    }
}

// ---------------------------------------------------------------------------
// Unit propagation and the watch invariant
// ---------------------------------------------------------------------------

impl Solver {
    /// Emptying one watch list keeps the lists valid.
    proof fn lemma_watches_ok_clear(&self, ws: Seq<Seq<(usize, Lit)>>, x: int)
        requires
            self.watches_ok(ws),
            0 <= x < ws.len(),
        ensures
            self.watches_ok(ws.update(x, Seq::empty())),
    {
        let ws2 = ws.update(x, Seq::<(usize, Lit)>::empty());
        assert forall|y: int, j: int| 0 <= y < ws2.len() && 0 <= j < ws2[y].len() implies #[trigger] self.entry_ok(
            y,
            ws2[y][j],
        ) by {
            assert(ws2[y] == ws[y]);
        }
        assert forall|y: int, j1: int, j2: int|
            0 <= y < ws2.len() && 0 <= j1 < ws2[y].len() && 0 <= j2 < ws2[y].len() && j1 != j2 implies #[trigger] ws2[y][j1].0
            != #[trigger] ws2[y][j2].0 by {
            assert(ws2[y] == ws[y]);
        }
    }

    /// The literals watched in clause `cr`.
    spec fn watched(&self, cr: int, x: int) -> bool {
        x == neg_of(self.clauses@[cr].lits@[0] as int) || x == neg_of(self.clauses@[cr].lits@[1] as int)
    }

    /// Visits the clauses watching the complement of every trail literal not
    /// yet propagated, assigning the last unassigned literal of each clause
    /// whose other literals are false.  Returns a clause whose literals are all
    /// false, if one is met.
    pub fn propagate(&mut self) -> (conflict: Option<usize>)
        requires
            old(self).inv(),
            old(self).inv_watch(),
            old(self).inv_sound(),
        ensures
            final(self).refuted_ok() == old(self).refuted_ok(),
            final(self).inv(),
            final(self).inv_watch(),
            final(self).inv_sound(),
            final(self).formula() == old(self).formula(),
            final(self).dropped() == old(self).dropped(),
            final(self).heap_ready() == old(self).heap_ready(),
            final(self).propagated_from(*old(self)),
            old(self).trail_view().len() <= final(self).trail_view().len(),
            final(self).trail_view().subrange(0, old(self).trail_view().len() as int) == old(self).trail_view(),
            final(self).trail_lim_view() == old(self).trail_lim_view(),
            final(self).num_clauses() == old(self).num_clauses(),
            forall|i: int|
                old(self).trail_view().len() <= i < final(self).trail_view().len()
                    ==> #[trigger] final(self).implied_at_top(i),
            conflict is None ==> final(self).qhead_view() == final(self).trail_view().len(),
            conflict is None && old(self).settled() ==> final(self).settled(),
            conflict is None && old(self).settled() ==> forall|c: int| #[trigger] final(self).live(c) ==> !final(self).unit_or_false(c),
            conflict matches Some(cr) ==> final(self).conflicting(cr as int)
                && final(self).has_lit_at_top_level(cr as int),
    {
        let mut conflict: Option<usize> = None;
        proof {
            self.lemma_propagated_refl();
        }
        while self.qhead < self.trail.len()
            invariant
                self.refuted == old(self).refuted,
                self.inv(),
                self.inv_watch(),
                self.inv_sound(),
                self.formula == old(self).formula,
                self.dropped == old(self).dropped,
                self.propagated_from(*old(self)),
                old(self).inv(),
                conflict is None,
                old(self).settled() ==> self.settled(),
            decreases self.nv() - self.qhead,
        {
            let ghost pre0 = *self;
            let p = self.trail[self.qhead];
            self.qhead = self.qhead + 1;
            self.propagations = self.propagations.wrapping_add(1);
            proof {
                self.lemma_watch_frame(pre0);
                self.lemma_sound_same(pre0);
                assert(p < 2 * self.nv());
                assert(self.trail@[self.qhead - 1] == p);
                self.lemma_trail_frame(pre0, true);
                assert(self.wview() == pre0.wview());
                self.lemma_watches_ok_frame(pre0, self.wview());
                self.lemma_top_level(self.qhead - 1);
            }
            let ghost pre = *self;
            let ghost eff0 = self.wview();
            let mut wl: Vec<(usize, Lit)> = Vec::new();
            std::mem::swap(&mut wl, &mut self.watches[p as usize]);
            let ghost wl0 = wl@;
            let mut i: usize = 0;
            let mut j: usize = 0;
            let len = wl.len();
            proof {
                assert(self.wview().update(p as int, wl@) =~= eff0);
                self.lemma_propagated_refl();
                self.lemma_trail_frame(pre, true);
                self.lemma_watches_ok_frame(pre, eff0);
                assert(joined(wl@, 0, 0) =~= wl@);
                assert(self.trail@[self.qhead - 1] == p);
                self.lemma_complete_frame(pre, eff0);
                self.lemma_settled_same(pre, self.settled@);
                self.lemma_sound_same(pre);
            }
            while i < len
                invariant
                    self.refuted == old(self).refuted,
                    self.visiting(pre, p, wl@, wl0, i as int, j as int),
                    self.visiting_watch_base(pre, p, wl@, i as int, j as int),
                    conflict is None ==> self.visiting_watch(pre, p, wl@, i as int, j as int),
                    pre.inv_watch(),
                    self.inv_sound(),
                    self.formula == old(self).formula,
                    self.dropped == old(self).dropped,
                    pre0.settled@ == pre.settled@,
                    pre.qhead == pre0.qhead + 1,
                    len == wl@.len(),
                    conflict matches Some(cr) ==> i == len && self.conflicting(cr as int)
                        && self.has_lit_at_top_level(cr as int),
                decreases len - i,
            {
                let (ni, nj, c) = self.visit_watch(p, &mut wl, i, j, Ghost(pre), Ghost(wl0));
                i = ni;
                j = nj;
                if c.is_some() {
                    conflict = c;
                }
            }
            let ghost e_end = joined(wl@, i as int, j as int);
            let ghost s4_wl = wl@;
            wl.truncate(j);
            let ghost s4 = *self;
            proof {
                assert(wl@ =~= e_end);
            }
            self.watches.set(p as usize, wl);
            proof {
                assert(self.wview() =~= s4.wview().update(p as int, e_end));
                self.lemma_trail_frame(s4, true);
                self.lemma_watches_ok_frame(s4, self.wview());
                self.lemma_complete_frame(s4, self.wview());
                self.lemma_settled_same(s4, self.settled@);
                self.lemma_sound_same(s4);
                s4.lemma_propagated_refl();
                Solver::lemma_propagated_trans(pre, s4, *self);
                Solver::lemma_propagated_trans(pre0, pre, *self);
                Solver::lemma_propagated_trans(*old(self), pre0, *self);
                if conflict is Some {
                    self.lemma_conflict_frame(s4, conflict->0 as int);
                }
            }
            if conflict.is_some() {
                proof {
                    self.lemma_propagated_views(*old(self));
                }
                return conflict;
            }
            proof {
                if self.settled@ + 1 == self.qhead as int {
                    assert forall|b: int| 0 <= b < self.wview()[p as int].len() implies #[trigger] self.has_true(
                        self.wview()[p as int][b].0 as int,
                    ) by {
                        assert(self.wview()[p as int] == e_end);
                        assert(e_end[b] == s4_wl[b]);
                        assert(s4.has_true(s4_wl[b].0 as int));
                        let c = s4_wl[b].0 as int;
                        let k = choose|k: int| 0 <= k < s4.clauses@[c].lits@.len() && #[trigger] s4.is_true(s4.clauses@[c].lits@[k] as int);
                        assert(self.is_true(self.clauses@[c].lits@[k] as int));
                    }
                    self.lemma_settle_step(self.qhead - 1);
                }
            }
            let ghost s5 = *self;
            self.settled = Ghost(
                if self.settled@ + 1 == self.qhead as int {
                    self.qhead as int
                } else {
                    self.settled@
                },
            );
            proof {
                self.lemma_counter_frame(s5);
                self.lemma_sound_same(s5);
                self.lemma_trail_frame(s5, true);
                assert(self.wview() == s5.wview());
                self.lemma_complete_frame(s5, self.wview());
                if s5.settled@ + 1 == s5.qhead as int {
                    self.lemma_settled_same(s5, s5.qhead as int);
                } else {
                    self.lemma_settled_same(s5, s5.settled@);
                }
                assert(s5.settled@ == pre.settled@);
                assert(self.trail_lim@ == pre.trail_lim@);
                assert(self.inv_watch());
            }
        }
        proof {
            if old(self).settled() {
                self.lemma_no_conflict();
            }
            self.lemma_propagated_views(*old(self));
        }
        None
    }

    proof fn lemma_conflict_frame(&self, pre: Solver, cr: int)
        requires
            pre.conflicting(cr),
            pre.has_lit_at_top_level(cr),
            self.clauses@ == pre.clauses@,
            self.assigns@ == pre.assigns@,
            self.level@ == pre.level@,
            self.trail_lim@ == pre.trail_lim@,
        ensures
            self.conflicting(cr),
            self.has_lit_at_top_level(cr),
    {
        assert forall|k: int| 0 <= k < self.clauses@[cr].lits@.len() implies #[trigger] self.is_false(
            self.clauses@[cr].lits@[k] as int,
        ) by {
            assert(pre.is_false(pre.clauses@[cr].lits@[k] as int));
        }
        let k = choose|k: int|
            0 <= k < pre.clauses@[cr].lits@.len() && #[trigger] pre.level@[var_of(
                pre.clauses@[cr].lits@[k] as int,
            )] == pre.trail_lim@.len();
        assert(self.level@[var_of(self.clauses@[cr].lits@[k] as int)] == self.trail_lim@.len());
    }

    /// The state while the watch list of `p` is being visited: the list is
    /// taken out of the solver, `wl[..j]` holds the entries kept so far and
    /// `wl[i..]` those not yet visited.
    spec fn visiting(
        &self,
        pre: Solver,
        p: Lit,
        wl: Seq<(usize, Lit)>,
        wl0: Seq<(usize, Lit)>,
        i: int,
        j: int,
    ) -> bool {
        &&& self.inv_sizes()
        &&& self.inv_clauses()
        &&& self.inv_trail()
        &&& self.inv_heap()
        &&& self.inv_seen()
        &&& (p as int) < 2 * self.nv()
        &&& self.watches@[p as int]@ == Seq::<(usize, Lit)>::empty()
        &&& self.watches_ok(self.wview().update(p as int, joined(wl, i, j)))
        &&& wl.len() == wl0.len()
        &&& 0 <= j <= i <= wl.len()
        &&& forall|b: int| i <= b < wl.len() ==> #[trigger] wl[b] == wl0[b]
        &&& self.qhead == pre.qhead
        &&& 1 <= self.qhead <= self.trail@.len()
        &&& self.trail@[self.qhead - 1] == p
        &&& self.is_true(p as int)
        &&& self.level@[var_of(p as int)] == self.trail_lim@.len()
        &&& self.propagated_from(pre)
    }

    /// Visits entry `i` of the watch list `wl` of `p`: keeps it (possibly
    /// with a new blocker), moves the clause's watch to another literal, or
    /// finds the clause unit (assigning its first literal) or conflicting.
    /// Returns the new visit and keep positions and the conflict, if any.
    #[verifier::rlimit(100)]
    #[verifier::spinoff_prover]
    fn visit_watch(
        &mut self,
        p: Lit,
        wl: &mut Vec<(usize, Lit)>,
        i: usize,
        j: usize,
        Ghost(pre): Ghost<Solver>,
        Ghost(wl0): Ghost<Seq<(usize, Lit)>>,
    ) -> (r: (usize, usize, Option<usize>))
        requires
            old(self).visiting(pre, p, old(wl)@, wl0, i as int, j as int),
            old(self).visiting_watch(pre, p, old(wl)@, i as int, j as int),
            old(self).inv_sound(),
            i < old(wl)@.len(),
        ensures
            final(self).refuted == old(self).refuted,
            final(self).inv_sound(),
            final(self).formula == old(self).formula,
            final(self).dropped == old(self).dropped,
            final(self).visiting(pre, p, final(wl)@, wl0, r.0 as int, r.1 as int),
            final(self).visiting_watch_base(pre, p, final(wl)@, r.0 as int, r.1 as int),
            r.2 is None ==> final(self).visiting_watch(pre, p, final(wl)@, r.0 as int, r.1 as int),
            r.0 > i,
            r.2 matches Some(cr) ==> r.0 == final(wl)@.len() && final(self).conflicting(cr as int)
                && final(self).has_lit_at_top_level(cr as int),
    {
        let ghost s0 = *self;
        let ghost e0 = joined(wl@, i as int, j as int);
        let len = wl.len();
        let false_lit = lit_neg(p);
        let (cr, blocker) = wl[i];
        proof {
            assert(e0[j as int] == wl@[i as int]);
            let ws = self.wview().update(p as int, e0);
            assert(ws[p as int] == e0);
            assert(self.entry_ok(p as int, ws[p as int][j as int]));
            self.lemma_watched_pair(cr as int, p as int, false_lit as int);
            lemma_value_of_neg(self.assigns@, p as int);
            s0.lemma_propagated_refl();
        }
        if eval_lit(&self.assigns, blocker) == LBOOL_TRUE {
            wl.set(j, wl[i]);
            proof {
                assert(joined(wl@, i + 1, j + 1) =~= e0);
                let ws = self.wview().update(p as int, e0);
                assert(ws[p as int][j as int] == (cr, blocker));
                assert(self.clauses@[cr as int].lits@.contains(blocker));
                self.lemma_has_true_contains(cr as int, blocker);
                assert forall|b: int| 0 <= b < j + 1 implies #[trigger] self.has_true(wl@[b].0 as int) by {
                    if b < j {
                        assert(wl@[b] == old(wl)@[b]);
                    }
                }
            }
            return (i + 1, j + 1, None);
        }
        if self.clauses[cr].lits[0] == false_lit {
            proof {
                self.lemma_not_reason(cr as int);
            }
            self.swap_lits(cr, 0, 1);
            proof {
                s0.lemma_swap_frame(*self, cr as int, e0, p as int);
                s0.lemma_swap01_watch(*self, cr as int, s0.wview().update(p as int, e0));
                s0.lemma_swap_sound(*self, cr as int, 0, 1);
                assert(s0.settled_upto(s0.settled@));
                assert(self.settled_upto(self.settled@));
                assert(self.wview() == s0.wview());
                assert forall|b: int| 0 <= b < j implies #[trigger] self.has_true(wl@[b].0 as int) by {
                    assert(s0.has_true(wl@[b].0 as int));
                    assert(s0.entry_ok(p as int, e0[b]));
                }
            }
        }
        let ghost s1 = *self;
        let first = self.clauses[cr].lits[0];
        proof {
            assert(self.clauses@[cr as int].lits@[1] == false_lit);
            Solver::lemma_propagated_trans(pre, s0, s1);
        }
        if eval_lit(&self.assigns, first) == LBOOL_TRUE {
            wl.set(j, (cr, first));
            proof {
                assert(joined(wl@, i + 1, j + 1) =~= e0.update(j as int, (cr, first)));
                self.lemma_reblock(self.wview(), p as int, e0, j as int, first);
                assert(self.clauses@[cr as int].lits@[0] == first);
                assert(self.clauses@[cr as int].lits@.contains(first));
                self.lemma_reblock_watch(self.wview(), p as int, e0, j as int, first);
                self.lemma_has_true_contains(cr as int, first);
                assert forall|b: int| 0 <= b < j + 1 implies #[trigger] self.has_true(wl@[b].0 as int) by {
                    if b < j {
                        assert(wl@[b] == old(wl)@[b]);
                    }
                }
            }
            return (i + 1, j + 1, None);
        }
        proof {
            self.lemma_not_reason(cr as int);
        }
        let clen = self.clauses[cr].lits.len();
        let mut found = false;
        let mut k: usize = 2;
        #[verifier::loop_isolation(false)]
        while k < clen
            invariant
                2 <= k <= clen,
                clen == self.clauses@[cr as int].lits@.len(),
                *self == s1,
                !found,
                forall|k2: int| 2 <= k2 < k ==> #[trigger] self.is_false(self.clauses@[cr as int].lits@[k2] as int),
            decreases clen - k,
        {
            let lk = self.clauses[cr].lits[k];
            if eval_lit(&self.assigns, lk) != LBOOL_FALSE {
                let ghost s2 = *self;
                self.swap_lits(cr, 1, k);
                let new_watch = self.clauses[cr].lits[1];
                let first_lit = self.clauses[cr].lits[0];
                proof {
                    assert(new_watch == s2.clauses@[cr as int].lits@[k as int]);
                    assert(s2.clauses@[cr as int].lits@[k as int] < 2 * self.nv());
                }
                let ghost s3 = *self;
                self.watches[lit_neg(new_watch) as usize].push((cr, first_lit));
                proof {
                    s2.lemma_found(s3, *self, cr as int, k as int, e0, j as int, p as int);
                    s2.lemma_found_watch(*self, cr as int, k as int, e0, j as int, p as int);
                    s2.lemma_swap_sound(s3, cr as int, 1, k as int);
                    self.lemma_sound_same(s3);
                }
                found = true;
                break;
            }
            k = k + 1;
        }
        if found {
            proof {
                assert(joined(wl@, i + 1, j as int) =~= e0.remove(j as int));
                Solver::lemma_propagated_trans(pre, s1, *self);
                assert forall|b: int| 0 <= b < j implies #[trigger] self.has_true(wl@[b].0 as int) by {
                    assert(s1.has_true(wl@[b].0 as int));
                    assert(s1.entry_ok(p as int, e0[b]));
                    assert(e0[b] == wl@[b]);
                    assert(e0[j as int].0 == cr);
                    assert(wl@[b].0 != cr);
                }
            }
            return (i + 1, j, None);
        }
        let first = self.clauses[cr].lits[0];
        wl.set(j, (cr, first));
        let j = j + 1;
        let ghost e1 = e0.update(j - 1, (cr, first));
        proof {
            self.lemma_reblock(self.wview(), p as int, e0, j - 1, first);
            assert(joined(wl@, (i + 1) as int, j as int) =~= e1);
            assert(self.clauses@[cr as int].lits@[0] == first);
            assert(self.clauses@[cr as int].lits@.contains(first));
            self.lemma_reblock_watch(self.wview(), p as int, e0, j - 1, first);
        }
        let val = eval_lit(&self.assigns, first);
        if val == LBOOL_FALSE {
            let mut i = i;
            let mut j = j;
            while i + 1 < len
                invariant
                    j <= i + 1,
                    i < len,
                    len == wl@.len(),
                    joined(wl@, (i + 1) as int, j as int) == e1,
                decreases len - i,
            {
                i = i + 1;
                wl.set(j, wl[i]);
                j = j + 1;
                proof {
                    assert(joined(wl@, (i + 1) as int, j as int) =~= e1);
                }
            }
            proof {
                assert(joined(wl@, (i + 1) as int, j as int) =~= e1);
                self.lemma_conflicting(cr as int, p as int);
            }
            return (i + 1, j, Some(cr));
        } else if val == LBOOL_UNDEF {
            proof {
                self.lemma_watches_ok_clear(self.wview().update(p as int, e1), p as int);
                assert(self.wview().update(p as int, e1).update(p as int, Seq::empty()) =~= self.wview());
                self.lemma_can_enqueue_unit(cr as int, p as int);
                if self.trail_lim@.len() == 0 {
                    let l = self.clauses@[cr as int].lits@;
                    assert(clause_wf(l, self.nv()));
                    assert(self.live(cr as int));
                    lemma_value_of_neg(self.assigns@, p as int);
                    assert(self.is_false(l[1] as int));
                    self.lemma_unit_implied(l);
                }
            }
            let ghost s3 = *self;
            self.enqueue(first, cr as u32);
            proof {
                assert(self.wview() == s3.wview());
                self.lemma_complete_frame(s3, self.wview().update(p as int, e1));
                assert(self.settled_upto(self.settled@));
                self.lemma_has_true_contains(cr as int, first);
                assert forall|b: int| 0 <= b < j implies #[trigger] self.has_true(wl@[b].0 as int) by {
                    if b < j - 1 {
                        assert(wl@[b] == old(wl)@[b]);
                        assert(s3.has_true(wl@[b].0 as int));
                        assert(s3.entry_ok(p as int, e0[b]));
                        self.lemma_has_true_grow(s3, wl@[b].0 as int);
                    }
                }
                self.lemma_watches_ok_frame(s3, self.wview().update(p as int, e1));
                self.lemma_enqueue_propagated(s3, first as int);
                Solver::lemma_propagated_trans(pre, s3, *self);
                assert(self.trail@[self.qhead - 1] == p);
            }
            return (i + 1, j, None);
        } else {
            proof {
                lemma_value_of_neg(self.assigns@, first as int);
                self.lemma_has_true_contains(cr as int, first);
                assert forall|b: int| 0 <= b < j implies #[trigger] self.has_true(wl@[b].0 as int) by {
                    if b < j - 1 {
                        assert(wl@[b] == old(wl)@[b]);
                    }
                }
            }
            return (i + 1, j, None);
        }
    }

    /// `self` is `pre` after propagation: the trail has only grown, clause
    /// literals are only reordered, and nothing else changed.
    pub closed spec fn propagated_from(&self, pre: Solver) -> bool {
        &&& pre.trail@.len() <= self.trail@.len()
        &&& self.trail@.subrange(0, pre.trail@.len() as int) == pre.trail@
        &&& self.trail_lim@ == pre.trail_lim@
        &&& pre.qhead <= self.qhead
        &&& self.clauses@.len() == pre.clauses@.len()
        &&& forall|c: int|
            0 <= c < self.clauses@.len() ==> (#[trigger] self.clauses@[c]).lits@.to_multiset()
                == pre.clauses@[c].lits@.to_multiset() && self.clauses@[c].learnt == pre.clauses@[c].learnt
                && self.clauses@[c].lbd == pre.clauses@[c].lbd
        &&& self.num_vars == pre.num_vars
        &&& self.num_original_clauses == pre.num_original_clauses
        &&& self.heap == pre.heap
        &&& self.heap_filled == pre.heap_filled
        &&& self.seen@ == pre.seen@
        &&& forall|v: int|
            0 <= v < self.nv() && pre.assigned(v) ==> #[trigger] self.assigns@[v] == pre.assigns@[v]
                && self.level@[v] == pre.level@[v] && self.reason@[v] == pre.reason@[v]
        &&& forall|i: int|
            pre.trail@.len() <= i < self.trail@.len() ==> 0 <= var_of(#[trigger] self.trail@[i] as int) < self.nv()
                && self.assigned(var_of(self.trail@[i] as int)) && self.reason@[var_of(self.trail@[i] as int)] != REASON_UNDEF
    }

    /// The literal at trail position `i` is true, was assigned at the current
    /// decision level, and was implied there by its reason clause: a stored
    /// clause whose first literal it is and each of whose other literals is
    /// false, its complement standing on the trail before position `i`.
    pub open spec fn implied_at_top(&self, i: int) -> bool {
        &&& self.implied_on_trail(i)
        &&& self.level_of(var_of(self.trail_view()[i] as int)) == self.dlevel()
    }

    /// The literal at trail position `i` is true and was implied by its
    /// reason clause: a stored clause whose first literal it is and each of
    /// whose other literals is false, its complement standing on the trail
    /// before position `i`.
    pub open spec fn implied_on_trail(&self, i: int) -> bool {
        let l = self.trail_view()[i];
        let v = var_of(l as int);
        let r = self.reason_of(v);
        &&& self.is_true(l as int)
        &&& r != REASON_UNDEF
        &&& 0 <= r < self.num_clauses()
        &&& self.clause_lits(r as int)[0] == l
        &&& forall|k: int|
            1 <= k < self.clause_lits(r as int).len() ==> #[trigger] self.is_false(
                self.clause_lits(r as int)[k] as int,
            ) && exists|j: int|
                0 <= j < i && #[trigger] self.trail_view()[j] as int == neg_of(self.clause_lits(r as int)[k] as int)
    }

    /// Clause `cr` has a literal over a variable assigned at the current level.
    pub closed spec fn has_lit_at_top_level(&self, cr: int) -> bool {
        exists|k: int|
            0 <= k < self.clauses@[cr].lits@.len() && #[trigger] self.level@[var_of(
                self.clauses@[cr].lits@[k] as int,
            )] == self.trail_lim@.len()
    }
}

/// A watch list being visited: the entries kept so far followed by those not
/// yet visited.
pub open spec fn joined(w: Seq<(usize, Lit)>, i: int, j: int) -> Seq<(usize, Lit)> {
    w.subrange(0, j) + w.subrange(i, w.len() as int)
}

impl Solver {
    /// What `propagated_from` states, over the public views: the old trail
    /// is kept as a prefix, the decision levels and the clause count stay,
    /// and every literal added is implied at the current level.
    pub proof fn lemma_propagated_views(&self, pre: Solver)
        requires
            pre.inv(),
            self.inv(),
            self.propagated_from(pre),
        ensures
            pre.trail_view().len() <= self.trail_view().len(),
            self.trail_view().subrange(0, pre.trail_view().len() as int) == pre.trail_view(),
            self.trail_lim_view() == pre.trail_lim_view(),
            self.num_clauses() == pre.num_clauses(),
            forall|i: int|
                pre.trail_view().len() <= i < self.trail_view().len() ==> #[trigger] self.implied_at_top(i),
    {
        assert forall|i: int| pre.trail_view().len() <= i < self.trail_view().len() implies #[trigger]
            self.implied_at_top(i) by {
            let t = self.trail@;
            let tl = self.trail_lim@;
            let v = var_of(t[i] as int);
            assert(self.at_level(i, self.level@[v] as int));
            assert(self.reason_ok(i));
            assert(t[i] < 2 * self.nv());
            let lv = self.level@[v] as int;
            if lv < tl.len() {
                assert(tl[lv] <= pre.trail@.len()) by {
                    assert(pre.trail_lim@[lv] <= pre.trail@.len());
                }
            }
            let r = self.reason@[v] as int;
            assert(self.reason@[v] != REASON_UNDEF);
            assert(clause_wf(self.clauses@[r].lits@, self.nv()));
            assert forall|k: int| 1 <= k < self.clauses@[r].lits@.len() implies #[trigger] self.is_false(
                self.clauses@[r].lits@[k] as int,
            ) && exists|j: int|
                0 <= j < i && #[trigger] self.trail_view()[j] as int == neg_of(self.clauses@[r].lits@[k] as int) by {
                assert(self.falsified_before(self.clauses@[r].lits@[k] as int, i));
                self.lemma_falsified_false(self.clauses@[r].lits@[k] as int, i);
                let j = choose|j: int| 0 <= j < i && self.trail@[j] as int == neg_of(self.clauses@[r].lits@[k] as int);
                assert(self.trail_view()[j] as int == neg_of(self.clauses@[r].lits@[k] as int));
            }
        }
    }

    pub proof fn lemma_propagated_refl(&self)
        ensures
            self.propagated_from(*self),
    {
        assert(self.trail@.subrange(0, self.trail@.len() as int) =~= self.trail@);
    }

    pub proof fn lemma_propagated_trans(a: Solver, b: Solver, c: Solver)
        requires
            b.propagated_from(a),
            c.propagated_from(b),
        ensures
            c.propagated_from(a),
    {
        assert(c.trail@.subrange(0, a.trail@.len() as int) =~= b.trail@.subrange(0, a.trail@.len() as int));
        assert forall|v: int| 0 <= v < c.nv() && a.assigned(v) implies #[trigger] c.assigns@[v] == a.assigns@[v]
            && c.level@[v] == a.level@[v] && c.reason@[v] == a.reason@[v] by {
            assert(b.assigns@[v] == a.assigns@[v]);
            assert(b.assigned(v));
        }
        assert forall|cc: int| 0 <= cc < c.clauses@.len() implies (#[trigger] c.clauses@[cc]).lits@.to_multiset()
            == a.clauses@[cc].lits@.to_multiset() && c.clauses@[cc].learnt == a.clauses@[cc].learnt
            && c.clauses@[cc].lbd == a.clauses@[cc].lbd by {
            assert(b.clauses@[cc].lits@.to_multiset() == a.clauses@[cc].lits@.to_multiset());
        }
        assert forall|i: int| a.trail@.len() <= i < c.trail@.len() implies 0 <= var_of(#[trigger] c.trail@[i] as int) < c.nv()
            && c.assigned(var_of(c.trail@[i] as int)) && c.reason@[var_of(c.trail@[i] as int)] != REASON_UNDEF by {
            if i < b.trail@.len() {
                assert(c.trail@[i] == b.trail@[i]);
                let v = var_of(b.trail@[i] as int);
                assert(b.assigned(v));
                assert(c.assigns@[v] == b.assigns@[v]);
            }
        }
    }

    /// The trail invariant depends only on the trail, the assignment, and the
    /// clauses that are reasons.
    proof fn lemma_trail_frame(&self, pre: Solver, strict: bool)
        requires
            pre.inv_trail_gen(strict),
            self.trail@ == pre.trail@,
            self.trail_lim@ == pre.trail_lim@,
            self.assigns@ == pre.assigns@,
            self.level@ == pre.level@,
            self.reason@ == pre.reason@,
            self.num_vars == pre.num_vars,
            pre.qhead <= self.qhead <= self.trail@.len(),
            self.clauses@.len() >= pre.clauses@.len(),
            forall|i: int|
                0 <= i < pre.trail@.len() && pre.reason@[var_of(#[trigger] pre.trail@[i] as int)] != REASON_UNDEF
                    ==> self.clauses@[pre.reason@[var_of(pre.trail@[i] as int)] as int] == pre.clauses@[pre.reason@[var_of(
                    pre.trail@[i] as int,
                )] as int],
        ensures
            self.inv_trail_gen(strict),
    {
        let t = self.trail@;
        assert forall|i: int| 0 <= i < t.len() implies (#[trigger] t[i]) < 2 * self.nv() && self.is_true(
            t[i] as int,
        ) by {
            assert(pre.is_true(t[i] as int));
        }
        assert forall|v: int|
            0 <= v < self.nv() && #[trigger] self.assigns@[v] != LBOOL_UNDEF implies exists|i: int|
            0 <= i < t.len() && var_of(#[trigger] t[i] as int) == v by {
            assert(pre.assigns@[v] != LBOOL_UNDEF);
        }
        assert forall|i: int| 0 <= i < t.len() implies #[trigger] self.at_level(
            i,
            self.level@[var_of(t[i] as int)] as int,
        ) by {
            assert(pre.at_level(i, pre.level@[var_of(t[i] as int)] as int));
        }
        assert forall|i: int| 0 <= i < t.len() implies #[trigger] self.reason_ok(i) by {
            assert(pre.reason_ok(i));
            let r = pre.reason@[var_of(t[i] as int)];
            if r != REASON_UNDEF {
                assert(self.clauses@[r as int] == pre.clauses@[r as int]);
                assert forall|k: int| 1 <= k < self.clauses@[r as int].lits@.len() implies #[trigger] self.falsified_before(
                    self.clauses@[r as int].lits@[k] as int,
                    i,
                ) by {
                    assert(pre.falsified_before(pre.clauses@[r as int].lits@[k] as int, i));
                }
            }
        }
    }

    /// Trail position `i` at or after the start of the newest level has the
    /// newest level.
    proof fn lemma_top_level(&self, i: int)
        requires
            self.inv_sizes(),
            self.inv_trail_gen(false),
            0 <= i < self.trail@.len(),
            self.trail_lim@.len() == 0 || self.trail_lim@.last() <= i,
        ensures
            self.level@[var_of(self.trail@[i] as int)] == self.trail_lim@.len(),
    {
        let l = self.level@[var_of(self.trail@[i] as int)] as int;
        assert(self.at_level(i, l));
        let tl = self.trail_lim@;
        if l < tl.len() {
            assert(i < tl[l]);
            assert(tl[l] <= tl[tl.len() - 1]) by {
                if l < tl.len() - 1 {
                    assert(tl[l] < tl[tl.len() - 1]);
                }
            }
        }
    }

    /// A clause watched from list `p` holds the complement of `p` among its
    /// first two literals.
    proof fn lemma_watched_pair(&self, cr: int, p: int, false_lit: int)
        requires
            self.live(cr),
            p >= 0,
            false_lit == neg_of(p),
            p == neg_of(self.clauses@[cr].lits@[0] as int) || p == neg_of(self.clauses@[cr].lits@[1] as int),
        ensures
            self.clauses@[cr].lits@[0] == false_lit || self.clauses@[cr].lits@[1] == false_lit,
    {
    }

    /// A clause whose first literal is not true is no reason.
    proof fn lemma_not_reason(&self, cr: int)
        requires
            self.inv_sizes(),
            self.inv_trail_gen(false),
            self.live(cr),
            !self.is_true(self.clauses@[cr].lits@[0] as int),
        ensures
            forall|i: int|
                0 <= i < self.trail@.len() ==> self.reason@[var_of(#[trigger] self.trail@[i] as int)] != cr,
    {
        assert forall|i: int| 0 <= i < self.trail@.len() implies self.reason@[var_of(
            #[trigger] self.trail@[i] as int,
        )] != cr by {
            assert(self.reason_ok(i));
            assert(self.is_true(self.trail@[i] as int));
            if self.reason@[var_of(self.trail@[i] as int)] == cr {
                assert(self.clauses@[cr].lits@[0] == self.trail@[i]);
            }
        }
    }
}

impl Solver {
    /// Changing only clause `cr`, which is no reason, keeps every reason clause.
    proof fn lemma_reasons_kept(pre: Solver, post: Solver, cr: int)
        requires
            pre.inv_trail_gen(false),
            forall|i: int|
                0 <= i < pre.trail@.len() ==> pre.reason@[var_of(#[trigger] pre.trail@[i] as int)] != cr,
            post.clauses@.len() == pre.clauses@.len(),
            forall|c: int| 0 <= c < pre.clauses@.len() && c != cr ==> #[trigger] post.clauses@[c] == pre.clauses@[c],
        ensures
            forall|i: int|
                0 <= i < pre.trail@.len() && pre.reason@[var_of(#[trigger] pre.trail@[i] as int)] != REASON_UNDEF
                    ==> post.clauses@[pre.reason@[var_of(pre.trail@[i] as int)] as int] == pre.clauses@[pre.reason@[var_of(
                    pre.trail@[i] as int,
                )] as int],
    {
        assert forall|i: int|
            0 <= i < pre.trail@.len() && pre.reason@[var_of(#[trigger] pre.trail@[i] as int)] != REASON_UNDEF
                implies post.clauses@[pre.reason@[var_of(pre.trail@[i] as int)] as int] == pre.clauses@[pre.reason@[var_of(
                pre.trail@[i] as int,
            )] as int] by {
            let r = pre.reason@[var_of(pre.trail@[i] as int)] as int;
            assert(r != cr);
            assert(pre.reason_ok(i));
            if 0 <= r < pre.clauses@.len() {
                assert(post.clauses@[r] == pre.clauses@[r]);
            }
        }
    }

    proof fn lemma_swap_wf(l: Seq<Lit>, a: int, b: int, nv: int)
        requires
            clause_wf(l, nv),
            0 <= a < l.len(),
            0 <= b < l.len(),
        ensures
            clause_wf(l.update(a, l[b]).update(b, l[a]), nv),
            l.update(a, l[b]).update(b, l[a]).to_multiset() == l.to_multiset(),
    {
        crate::clause::lemma_swap_multiset(l, a, b);
        let m = l.update(a, l[b]).update(b, l[a]);
        assert forall|x: int, y: int|
            0 <= x < m.len() && 0 <= y < m.len() && x != y implies var_of(m[x] as int) != var_of(
            m[y] as int,
        ) by {
            let ox = if x == a { b } else if x == b { a } else { x };
            let oy = if y == a { b } else if y == b { a } else { y };
            assert(m[x] == l[ox]);
            assert(m[y] == l[oy]);
        }
    }

    /// Exchanging the first two literals of a clause that is no reason keeps
    /// every invariant and the watch lists valid.
    proof fn lemma_swap_frame(&self, post: Solver, cr: int, e0: Seq<(usize, Lit)>, p: int)
        requires
            self.inv_sizes(),
            self.inv_clauses(),
            self.inv_trail(),
            self.inv_heap(),
            self.inv_seen(),
            0 <= p < 2 * self.nv(),
            self.watches_ok(self.wview().update(p, e0)),
            self.live(cr),
            !self.is_true(self.clauses@[cr].lits@[0] as int),
            post.clauses@.len() == self.clauses@.len(),
            forall|c: int| 0 <= c < self.clauses@.len() && c != cr ==> #[trigger] post.clauses@[c] == self.clauses@[c],
            post.clauses@[cr].lits@ == self.clauses@[cr].lits@.update(0, self.clauses@[cr].lits@[1]).update(
                1,
                self.clauses@[cr].lits@[0],
            ),
            post.clauses@[cr].learnt == self.clauses@[cr].learnt,
            post.clauses@[cr].lbd == self.clauses@[cr].lbd,
            post.watches@ == self.watches@,
            post.trail@ == self.trail@,
            post.trail_lim@ == self.trail_lim@,
            post.assigns@ == self.assigns@,
            post.level@ == self.level@,
            post.reason@ == self.reason@,
            post.seen@ == self.seen@,
            post.heap == self.heap,
            post.heap_filled == self.heap_filled,
            post.qhead == self.qhead,
            post.num_vars == self.num_vars,
            post.num_original_clauses == self.num_original_clauses,
        ensures
            post.inv_sizes(),
            post.inv_clauses(),
            post.inv_trail(),
            post.inv_heap(),
            post.inv_seen(),
            post.watches_ok(post.wview().update(p, e0)),
            post.propagated_from(*self),
    {
        let l = self.clauses@[cr].lits@;
        Self::lemma_swap_wf(l, 0, 1, self.nv());
        self.lemma_not_reason(cr);
        Self::lemma_reasons_kept(*self, post, cr);
        post.lemma_trail_frame(*self, true);
        assert forall|c: int| 0 <= c < post.clauses@.len() implies clause_wf(#[trigger] post.clauses@[c].lits@, post.nv()) by {
            if c != cr {
                assert(clause_wf(self.clauses@[c].lits@, self.nv()));
            }
        }
        let ws = self.wview().update(p, e0);
        assert(post.wview() == self.wview());
        assert forall|x: int, j: int| 0 <= x < ws.len() && 0 <= j < ws[x].len() implies #[trigger] post.entry_ok(
            x,
            ws[x][j],
        ) by {
            assert(self.entry_ok(x, ws[x][j]));
        }
        assert forall|c: int| 0 <= c < post.clauses@.len() implies (#[trigger] post.clauses@[c]).lits@.to_multiset()
            == self.clauses@[c].lits@.to_multiset() && post.clauses@[c].learnt == self.clauses@[c].learnt
            && post.clauses@[c].lbd == self.clauses@[c].lbd by {
        }
        self.lemma_propagated_refl();
    }

    /// Re-blocking an entry of a watch list under visit keeps it valid.
    proof fn lemma_reblock(&self, ws: Seq<Seq<(usize, Lit)>>, p: int, e0: Seq<(usize, Lit)>, j: int, first: Lit)
        requires
            0 <= p < ws.len(),
            self.watches_ok(ws.update(p, e0)),
            0 <= j < e0.len(),
            self.entry_ok(p, (e0[j].0, first)),
        ensures
            self.watches_ok(ws.update(p, e0.update(j, (e0[j].0, first)))),
    {
        let w1 = ws.update(p, e0);
        let w2 = ws.update(p, e0.update(j, (e0[j].0, first)));
        assert forall|x: int, jj: int| 0 <= x < w2.len() && 0 <= jj < w2[x].len() implies #[trigger] self.entry_ok(
            x,
            w2[x][jj],
        ) by {
            if x != p || jj != j {
                assert(w2[x][jj] == w1[x][jj]);
            }
        }
        assert forall|x: int, j1: int, j2: int|
            0 <= x < w2.len() && 0 <= j1 < w2[x].len() && 0 <= j2 < w2[x].len() && j1 != j2 implies #[trigger] w2[x][j1].0
            != #[trigger] w2[x][j2].0 by {
            assert(w2[x][j1].0 == w1[x][j1].0);
            assert(w2[x][j2].0 == w1[x][j2].0);
        }
    }

    /// Moving the watch of clause `cr` from its false second literal to its
    /// non-false literal `k` keeps the watch lists valid.
    proof fn lemma_found(&self, mid: Solver, post: Solver, cr: int, k: int, e0: Seq<(usize, Lit)>, j: int, p: int)
        requires
            self.inv_sizes(),
            self.inv_clauses(),
            self.inv_trail(),
            self.inv_heap(),
            self.inv_seen(),
            0 <= p < 2 * self.nv(),
            self.watches@[p]@ == Seq::<(usize, Lit)>::empty(),
            self.watches_ok(self.wview().update(p, e0)),
            0 <= j < e0.len(),
            e0[j].0 == cr,
            self.live(cr),
            2 <= k < self.clauses@[cr].lits@.len(),
            self.clauses@[cr].lits@[1] as int == neg_of(p),
            self.is_true(p),
            !self.is_true(self.clauses@[cr].lits@[0] as int),
            !self.is_false(self.clauses@[cr].lits@[k] as int),
            mid.clauses@.len() == self.clauses@.len(),
            forall|c: int| 0 <= c < self.clauses@.len() && c != cr ==> #[trigger] mid.clauses@[c] == self.clauses@[c],
            mid.clauses@[cr].lits@ == self.clauses@[cr].lits@.update(1, self.clauses@[cr].lits@[k]).update(
                k,
                self.clauses@[cr].lits@[1],
            ),
            mid.clauses@[cr].learnt == self.clauses@[cr].learnt,
            mid.clauses@[cr].lbd == self.clauses@[cr].lbd,
            mid.watches@ == self.watches@,
            mid.trail@ == self.trail@,
            mid.trail_lim@ == self.trail_lim@,
            mid.assigns@ == self.assigns@,
            mid.level@ == self.level@,
            mid.reason@ == self.reason@,
            mid.seen@ == self.seen@,
            mid.heap == self.heap,
            mid.heap_filled == self.heap_filled,
            mid.qhead == self.qhead,
            mid.num_vars == self.num_vars,
            mid.num_original_clauses == self.num_original_clauses,
            post.watches@.len() == mid.watches@.len(),
            post.watches@[neg_of(self.clauses@[cr].lits@[k] as int)]@ == mid.watches@[neg_of(
                self.clauses@[cr].lits@[k] as int,
            )]@.push((cr as usize, self.clauses@[cr].lits@[0])),
            forall|x: int|
                0 <= x < mid.watches@.len() && x != neg_of(self.clauses@[cr].lits@[k] as int)
                    ==> #[trigger] post.watches@[x] == mid.watches@[x],
            post.clauses@ == mid.clauses@,
            post.trail@ == mid.trail@,
            post.trail_lim@ == mid.trail_lim@,
            post.assigns@ == mid.assigns@,
            post.level@ == mid.level@,
            post.reason@ == mid.reason@,
            post.seen@ == mid.seen@,
            post.heap == mid.heap,
            post.heap_filled == mid.heap_filled,
            post.qhead == mid.qhead,
            post.num_vars == mid.num_vars,
            post.num_original_clauses == mid.num_original_clauses,
        ensures
            post.inv_sizes(),
            post.inv_clauses(),
            post.inv_trail(),
            post.inv_heap(),
            post.inv_seen(),
            post.watches_ok(post.wview().update(p, e0.remove(j))),
            post.watches@[p]@ == Seq::<(usize, Lit)>::empty(),
            post.propagated_from(*self),
            post.clauses@[cr].lits@[0] == self.clauses@[cr].lits@[0],
            post.clauses@[cr].lits@.to_multiset() == self.clauses@[cr].lits@.to_multiset(),
            !post.is_false(post.clauses@[cr].lits@[1] as int),
    {
        let l = self.clauses@[cr].lits@;
        let lk = l[k] as int;
        let y = neg_of(lk);
        let first = l[0];
        Self::lemma_swap_wf(l, 1, k, self.nv());
        self.lemma_not_reason(cr);
        Self::lemma_reasons_kept(*self, mid, cr);
        mid.lemma_trail_frame(*self, true);
        assert forall|i: int|
            0 <= i < mid.trail@.len() && mid.reason@[var_of(#[trigger] mid.trail@[i] as int)] != REASON_UNDEF
                implies post.clauses@[mid.reason@[var_of(mid.trail@[i] as int)] as int] == mid.clauses@[mid.reason@[var_of(
                mid.trail@[i] as int,
            )] as int] by {
        }
        post.lemma_trail_frame(mid, true);
        lemma_value_of_neg(self.assigns@, p);
        assert(clause_wf(l, self.nv()));
        assert(var_of(l[0] as int) != var_of(lk) && var_of(l[1] as int) != var_of(lk));
        assert(y != p);
        assert(y != neg_of(l[0] as int));
        assert forall|c: int| 0 <= c < post.clauses@.len() implies clause_wf(#[trigger] post.clauses@[c].lits@, post.nv()) by {
            if c != cr {
                assert(clause_wf(self.clauses@[c].lits@, self.nv()));
            }
        }
        let ws = self.wview().update(p, e0);
        let ws2 = post.wview().update(p, e0.remove(j));
        assert(post.wview().len() == post.watches@.len());
        assert(self.wview().len() == self.watches@.len());
        assert(ws2.len() == ws.len());
        assert forall|x: int| 0 <= x < ws2.len() && x != y && x != p implies #[trigger] ws2[x] == ws[x] by {
            assert(post.watches@[x] == self.watches@[x]);
        }
        assert(ws2[y] == ws[y].push((cr as usize, first)));
        assert(ws2[p] == e0.remove(j));
        // entries of cr live only in the lists of its two watched literals
        assert forall|x: int, jj: int| 0 <= x < ws.len() && 0 <= jj < ws[x].len() && ws[x][jj].0 == cr && x == p implies jj
            == j by {
            assert(ws[p] == e0);
            if jj != j {
                assert(ws[x][jj].0 != ws[x][j].0);
            }
        }
        assert forall|x: int, jj: int| 0 <= x < ws2.len() && 0 <= jj < ws2[x].len() implies #[trigger] post.entry_ok(
            x,
            ws2[x][jj],
        ) by {
            let e = ws2[x][jj];
            if x == y && jj == ws[y].len() {
                assert(e == (cr as usize, first));
            } else {
                let (ox, oj) = if x == p {
                    (p, if jj < j { jj } else { jj + 1 })
                } else {
                    (x, jj)
                };
                assert(e == ws[ox][oj]);
                assert(self.entry_ok(ox, ws[ox][oj]));
                if e.0 as int == cr {
                    if ox == p {
                        assert(oj == j);
                    }
                    assert(x == neg_of(first as int) || x == p);
                }
            }
        }
        assert forall|x: int, j1: int, j2: int|
            0 <= x < ws2.len() && 0 <= j1 < ws2[x].len() && 0 <= j2 < ws2[x].len() && j1 != j2 implies #[trigger] ws2[x][j1].0
            != #[trigger] ws2[x][j2].0 by {
            if x == p {
                let o1 = if j1 < j { j1 } else { j1 + 1 };
                let o2 = if j2 < j { j2 } else { j2 + 1 };
                assert(ws2[x][j1] == ws[p][o1]);
                assert(ws2[x][j2] == ws[p][o2]);
            } else if x == y {
                if j1 == ws[y].len() {
                    assert(self.entry_ok(y, ws[y][j2]));
                } else if j2 == ws[y].len() {
                    assert(self.entry_ok(y, ws[y][j1]));
                } else {
                    assert(ws2[x][j1] == ws[x][j1]);
                    assert(ws2[x][j2] == ws[x][j2]);
                }
            } else {
                assert(ws2[x] == ws[x]);
            }
        }
        assert(post.watches@[p] == self.watches@[p]);
        self.lemma_propagated_refl();
    }

    proof fn lemma_conflicting(&self, cr: int, p: int)
        requires
            self.inv_sizes(),
            self.live(cr),
            0 <= p < 2 * self.nv(),
            self.is_true(p),
            self.clauses@[cr].lits@[1] as int == neg_of(p),
            self.is_false(self.clauses@[cr].lits@[0] as int),
            forall|k: int|
                2 <= k < self.clauses@[cr].lits@.len() ==> #[trigger] self.is_false(self.clauses@[cr].lits@[k] as int),
            self.level@[var_of(p)] == self.trail_lim@.len(),
        ensures
            self.conflicting(cr),
            self.has_lit_at_top_level(cr),
    {
        lemma_value_of_neg(self.assigns@, p);
        assert(var_of(neg_of(p)) == var_of(p));
        assert(self.level@[var_of(self.clauses@[cr].lits@[1] as int)] == self.trail_lim@.len());
    }

    proof fn lemma_can_enqueue_unit(&self, cr: int, p: int)
        requires
            self.inv_sizes(),
            self.inv_clauses(),
            self.inv_trail(),
            self.live(cr),
            1 <= self.qhead <= self.trail@.len(),
            self.trail@[self.qhead - 1] as int == p,
            0 <= p < 2 * self.nv(),
            self.clauses@[cr].lits@[1] as int == neg_of(p),
            self.value(self.clauses@[cr].lits@[0] as int) == LBOOL_UNDEF,
            forall|k: int|
                2 <= k < self.clauses@[cr].lits@.len() ==> #[trigger] self.is_false(self.clauses@[cr].lits@[k] as int),
        ensures
            self.can_enqueue(self.clauses@[cr].lits@[0] as int, cr as u32),
    {
        let l = self.clauses@[cr].lits@;
        assert(clause_wf(l, self.nv()));
        assert(l[0] < 2 * self.nv());
        assert((cr as u32) as int == cr);
        lemma_value_of_neg(self.assigns@, l[0] as int);
        assert forall|k: int| 1 <= k < l.len() implies #[trigger] self.falsified_before(
            l[k] as int,
            self.trail@.len() as int,
        ) by {
            if k == 1 {
                assert(self.trail@[self.qhead - 1] as int == neg_of(l[1] as int));
            } else {
                self.lemma_false_on_trail(l[k] as int);
            }
        }
    }

    proof fn lemma_enqueue_propagated(&self, pre: Solver, lit: int)
        requires
            pre.inv_sizes(),
            !pre.assigned(var_of(lit)),
            0 <= var_of(lit) < pre.assigns@.len(),
            self.reason@[var_of(lit)] != REASON_UNDEF,
            self.trail@ == pre.trail@.push(lit as Lit),
            self.assigns@ == pre.assigns@.update(
                var_of(lit),
                if is_pos(lit) {
                    LBOOL_TRUE
                } else {
                    LBOOL_FALSE
                },
            ),
            self.level@ == pre.level@.update(var_of(lit), pre.trail_lim@.len() as u32),
            self.reason@.len() == pre.reason@.len(),
            forall|v: int| 0 <= v < pre.reason@.len() && v != var_of(lit) ==> #[trigger] self.reason@[v] == pre.reason@[v],
            self.trail_lim@ == pre.trail_lim@,
            self.qhead == pre.qhead,
            self.clauses@ == pre.clauses@,
            self.heap == pre.heap,
            self.heap_filled == pre.heap_filled,
            self.seen@ == pre.seen@,
            self.num_vars == pre.num_vars,
            self.num_original_clauses == pre.num_original_clauses,
        ensures
            self.propagated_from(pre),
    {
        assert(self.trail@.subrange(0, pre.trail@.len() as int) =~= pre.trail@);
        assert forall|v: int| 0 <= v < self.nv() && pre.assigned(v) implies #[trigger] self.assigns@[v] == pre.assigns@[v]
            && self.level@[v] == pre.level@[v] && self.reason@[v] == pre.reason@[v] by {
            assert(v != var_of(lit));
        }
        assert forall|c: int| 0 <= c < self.clauses@.len() implies (#[trigger] self.clauses@[c]).lits@.to_multiset()
            == pre.clauses@[c].lits@.to_multiset() && self.clauses@[c].learnt == pre.clauses@[c].learnt
            && self.clauses@[c].lbd == pre.clauses@[c].lbd by {
        }
    }
}

impl Solver {
    /// The watch invariant depends on the clauses only through their
    /// literals, on the watch lists only through `complete`.
    proof fn lemma_complete_frame(&self, pre: Solver, ws: Seq<Seq<(usize, Lit)>>)
        requires
            pre.complete(ws),
            self.clauses@ == pre.clauses@,
        ensures
            self.complete(ws),
            pre.blockers_ok(ws) ==> self.blockers_ok(ws),
    {
        assert forall|c: int| #[trigger] self.live(c) implies self.listed(ws, c) by {
            assert(pre.live(c));
        }
    }

    /// Settledness up to `s` survives assigning more variables, as long as
    /// the clauses, the trail below `s` and the earlier assignments stay.
    proof fn lemma_settled_frame(&self, pre: Solver, s: int)
        requires
            pre.settled_upto(s),
            0 <= s <= pre.trail@.len(),
            pre.inv_sizes(),
            pre.inv_clauses(),
            pre.inv_trail_gen(false),
            self.clauses@ == pre.clauses@,
            pre.trail@.len() <= self.trail@.len(),
            self.trail@.subrange(0, pre.trail@.len() as int) == pre.trail@,
            self.assigns@.len() == pre.assigns@.len(),
            forall|v: int| 0 <= v < pre.nv() && pre.assigned(v) ==> #[trigger] self.assigns@[v] == pre.assigns@[v]
                && self.level@[v] == pre.level@[v],
        ensures
            self.settled_upto(s),
    {
        assert(pre.settled_upto_except(s, -1));
        self.lemma_settled_frame_except(pre, s, -1);
        assert forall|c: int| #[trigger] self.live(c) implies self.settled_clause(c, s) by {
            assert(c != -1);
        }
    }

    proof fn lemma_settled_frame_except(&self, pre: Solver, s: int, x: int)
        requires
            pre.settled_upto_except(s, x),
            0 <= s <= pre.trail@.len(),
            pre.inv_sizes(),
            pre.inv_clauses(),
            pre.inv_trail_gen(false),
            self.clauses@ == pre.clauses@,
            pre.trail@.len() <= self.trail@.len(),
            self.trail@.subrange(0, pre.trail@.len() as int) == pre.trail@,
            self.assigns@.len() == pre.assigns@.len(),
            forall|v: int| 0 <= v < pre.nv() && pre.assigned(v) ==> #[trigger] self.assigns@[v] == pre.assigns@[v]
                && self.level@[v] == pre.level@[v],
        ensures
            self.settled_upto_except(s, x),
    {
        assert forall|c: int| #[trigger] self.live(c) && c != x implies self.settled_clause(c, s) by {
            assert(pre.live(c));
            let l = self.clauses@[c].lits@;
            assert(clause_wf(l, pre.nv()));
            if self.falsified_before(l[0] as int, s) {
                pre.lemma_falsified_prefix(*self, l[0] as int, s);
                assert(l[0] < 2 * pre.nv());
                assert(self.assigns@[var_of(l[0] as int)] == pre.assigns@[var_of(l[0] as int)]);
                assert(self.level@[var_of(l[0] as int)] == pre.level@[var_of(l[0] as int)]);
            }
            if self.falsified_before(l[1] as int, s) {
                pre.lemma_falsified_prefix(*self, l[1] as int, s);
                assert(l[1] < 2 * pre.nv());
                assert(self.assigns@[var_of(l[1] as int)] == pre.assigns@[var_of(l[1] as int)]);
                assert(self.level@[var_of(l[1] as int)] == pre.level@[var_of(l[1] as int)]);
            }
            assert forall|k: int|
                #![trigger l[k]]
                0 <= k < l.len() && pre.is_true(l[k] as int) implies self.is_true(l[k] as int) && self.level@[var_of(
                l[k] as int,
            )] == pre.level@[var_of(l[k] as int)] by {
                assert(l[k] < 2 * pre.nv());
                assert(pre.assigned(var_of(l[k] as int)));
                assert(self.assigns@[var_of(l[k] as int)] == pre.assigns@[var_of(l[k] as int)]);
            }
            self.lemma_settled_clause_frame(pre, c, s, s, u32::MAX as int);
        }
    }

    /// A literal falsified before position `s` of a trail extending this
    /// one's (with `s` within this trail) was falsified before `s` here, and
    /// its variable is assigned here.
    proof fn lemma_falsified_prefix(&self, post: Solver, l: int, s: int)
        requires
            post.falsified_before(l, s),
            0 <= s <= self.trail@.len(),
            self.trail@.len() <= post.trail@.len(),
            post.trail@.subrange(0, self.trail@.len() as int) == self.trail@,
            self.inv_sizes(),
            self.inv_trail_gen(false),
            0 <= l,
        ensures
            self.falsified_before(l, s),
            self.assigned(var_of(l)),
    {
        let j = choose|j: int| 0 <= j < s && post.trail@[j] as int == neg_of(l);
        assert(self.trail@[j] == post.trail@[j]);
        assert(self.is_true(self.trail@[j] as int));
        assert(var_of(neg_of(l)) == var_of(l));
        lemma_value_of_neg(self.assigns@, self.trail@[j] as int);
    }
}

impl Solver {
    /// A trail position below the start of level `b + 1` belongs to a level
    /// no higher than `b`, and conversely.
    proof fn lemma_below_limit(&self, i: int, b: int)
        requires
            self.inv_sizes(),
            self.inv_trail_gen(false),
            0 <= i < self.trail@.len(),
            0 <= b < self.trail_lim@.len(),
        ensures
            (i < self.trail_lim@[b]) <==> (self.level@[var_of(self.trail@[i] as int)] <= b),
    {
        let tl = self.trail_lim@;
        let lv = self.level@[var_of(self.trail@[i] as int)] as int;
        assert(self.at_level(i, lv));
        if lv > b {
            assert(tl[b] <= tl[lv - 1]) by {
                if b < lv - 1 {
                    assert(tl[b] < tl[lv - 1]);
                }
            }
        } else {
            assert(lv < tl.len());
            assert(tl[lv] <= tl[b]) by {
                if lv < b {
                    assert(tl[lv] < tl[b]);
                }
            }
        }
    }

    /// Backjumping keeps the watch invariant, settled up to the new end of
    /// the trail.
    proof fn lemma_cancel_watch(&self, pre: Solver, level: int)
        requires
            pre.inv(),
            pre.inv_watch(),
            self.inv(),
            0 <= level < pre.trail_lim@.len(),
            self.cancelled_from(pre, level),
            self.same_db(pre),
            self.settled@ == pre.trail_lim@[level],
        ensures
            self.inv_watch(),
    {
        let limit = pre.trail_lim@[level] as int;
        let t = pre.trail@;
        let tl = pre.trail_lim@;
        assert(self.wview() == pre.wview());
        self.lemma_complete_frame(pre, self.wview());
        assert(tl[level] <= tl.last()) by {
            if level < tl.len() - 1 {
                assert(tl[level] < tl[tl.len() - 1]);
            }
        }
        assert forall|c: int| #[trigger] self.live(c) implies self.settled_clause(c, limit) by {
            assert(pre.live(c));
            let l = self.clauses@[c].lits@;
            assert(clause_wf(l, pre.nv()));
            assert(pre.settled_clause(c, pre.settled@));
            assert forall|w: int| 0 <= w < 2 && #[trigger] self.falsified_before(l[w] as int, limit) implies pre.falsified_before(
                l[w] as int,
                pre.settled@,
            ) && pre.level@[var_of(l[w] as int)] <= level && self.level@[var_of(l[w] as int)] == pre.level@[var_of(
                l[w] as int,
            )] by {
                let j = choose|j: int| 0 <= j < limit && self.trail@[j] as int == neg_of(l[w] as int);
                assert(t[j] == self.trail@[j]);
                pre.lemma_below_limit(j, level);
                assert(var_of(t[j] as int) == var_of(l[w] as int));
                assert(self.is_true(self.trail@[j] as int));
                assert(self.trail@[j] < 2 * pre.nv());
                assert(self.assigned(var_of(l[w] as int)));
            }
            assert forall|k: int|
                #![trigger l[k]]
                0 <= k < l.len() && pre.is_true(l[k] as int) && pre.level@[var_of(l[k] as int)] <= level implies self.is_true(
                l[k] as int,
            ) && self.level@[var_of(l[k] as int)] == pre.level@[var_of(l[k] as int)] by {
                let v = var_of(l[k] as int);
                assert(l[k] < 2 * pre.nv());
                assert(pre.assigned(v));
                let iv = choose|i: int| 0 <= i < t.len() && var_of(#[trigger] t[i] as int) == v;
                pre.lemma_below_limit(iv, level);
                if exists|i: int| limit <= i < t.len() && var_of(t[i] as int) == v {
                    let i2 = choose|i: int| limit <= i < t.len() && var_of(t[i] as int) == v;
                    assert(i2 != iv);
                    assert(false);
                }
                assert(self.assigns@[v] == pre.assigns@[v]);
                assert(self.assigned(v));
            }
            self.lemma_settled_clause_frame(pre, c, limit, pre.settled@, level);
        }
    }
}

impl Solver {
    /// The watch invariant depends only on the clauses, the watch lists, the
    /// trail and its assignment, and the settled position.
    proof fn lemma_watch_frame(&self, pre: Solver)
        requires
            pre.inv_watch(),
            self.clauses@ == pre.clauses@,
            self.watches@ == pre.watches@,
            self.trail@ == pre.trail@,
            self.assigns@ == pre.assigns@,
            self.level@ == pre.level@,
            pre.qhead <= self.qhead,
            self.settled == pre.settled,
            self.num_vars == pre.num_vars,
            self.trail_lim@.len() > 0 ==> self.trail_lim@.last() <= self.settled@,
        ensures
            self.inv_watch(),
    {
        assert(self.wview() == pre.wview());
        self.lemma_complete_frame(pre, self.wview());
        assert forall|c: int| #[trigger] self.live(c) implies self.settled_clause(c, self.settled@) by {
            assert(pre.live(c));
            self.lemma_settled_clause_frame(pre, c, self.settled@, pre.settled@, u32::MAX as int);
        }
    }
}

impl Solver {
    /// A literal falsified before a position of the trail is false.
    proof fn lemma_falsified_false(&self, l: int, s: int)
        requires
            self.inv_sizes(),
            self.inv_trail_gen(false),
            self.falsified_before(l, s),
            0 <= s <= self.trail@.len(),
            0 <= l < 2 * self.nv(),
        ensures
            self.is_false(l),
    {
        let j = choose|j: int| 0 <= j < s && self.trail@[j] as int == neg_of(l);
        assert(self.is_true(self.trail@[j] as int));
        lemma_value_of_neg(self.assigns@, l);
    }

    /// Storing a clause whose first or second literal is not false, and
    /// listing it under both, keeps the watch invariant.
    proof fn lemma_add_watch(&self, s0: Solver, cr: int)
        requires
            s0.inv(),
            s0.inv_watch(),
            self.inv(),
            cr == s0.clauses@.len(),
            self.clauses@.len() == cr + 1,
            forall|c: int| 0 <= c < cr ==> #[trigger] self.clauses@[c] == s0.clauses@[c],
            self.clauses@[cr].lits@.len() >= 2,
            ({
                let l = self.clauses@[cr].lits@;
                let x0 = neg_of(l[0] as int);
                let x1 = neg_of(l[1] as int);
                &&& self.watches@.len() == s0.watches@.len()
                &&& self.watches@[x0]@ == s0.watches@[x0]@.push((cr as usize, l[1]))
                &&& self.watches@[x1]@ == s0.watches@[x1]@.push((cr as usize, l[0]))
                &&& forall|x: int| 0 <= x < self.watches@.len() && x != x0 && x != x1 ==> #[trigger] self.watches@[x] == s0.watches@[x]
            }),
            self.trail@ == s0.trail@,
            self.trail_lim@ == s0.trail_lim@,
            self.assigns@ == s0.assigns@,
            self.level@ == s0.level@,
            self.qhead == s0.qhead,
            self.settled == s0.settled,
            self.num_vars == s0.num_vars,
        ensures
            self.inv_watch_except(cr),
            self.settled_clause(cr, self.settled@) ==> self.inv_watch(),
    {
        let l = self.clauses@[cr].lits@;
        let x0 = neg_of(l[0] as int);
        let x1 = neg_of(l[1] as int);
        let ws = self.wview();
        let ws0 = s0.wview();
        assert(clause_wf(l, self.nv()));
        assert(ws[x0] == ws0[x0].push((cr as usize, l[1])));
        assert(ws[x1] == ws0[x1].push((cr as usize, l[0])));
        assert forall|c: int| #[trigger] self.live(c) implies self.listed(ws, c) by {
            if c < cr {
                assert(s0.live(c));
                assert(s0.listed(ws0, c));
                let lc = self.clauses@[c].lits@;
                assert(lc == s0.clauses@[c].lits@);
                let y0 = neg_of(lc[0] as int);
                let y1 = neg_of(lc[1] as int);
                let j0 = choose|j: int| 0 <= j < ws0[y0].len() && (#[trigger] ws0[y0][j]).0 == c;
                let j1 = choose|j: int| 0 <= j < ws0[y1].len() && (#[trigger] ws0[y1][j]).0 == c;
                assert(ws[y0][j0] == ws0[y0][j0]);
                assert(ws[y1][j1] == ws0[y1][j1]);
            } else {
                assert(ws[x0][ws0[x0].len() as int].0 == c);
                assert(ws[x1][ws0[x1].len() as int].0 == c);
            }
        }
        assert forall|x: int, j: int| 0 <= x < ws.len() && 0 <= j < ws[x].len() implies #[trigger] self.clauses@[ws[x][j].0 as int].lits@.contains(
            ws[x][j].1,
        ) by {
            if (x == x0 || x == x1) && j == ws0[x].len() {
                if x == x0 {
                    assert(ws[x][j] == (cr as usize, l[1]));
                    assert(l[1] == l[1]);
                    assert(l.contains(l[1]));
                } else {
                    assert(ws[x][j] == (cr as usize, l[0]));
                    assert(l.contains(l[0]));
                }
            } else {
                assert(ws[x][j] == ws0[x][j]);
                assert(s0.blockers_ok(ws0));
                assert(s0.clauses@[ws0[x][j].0 as int].lits@.contains(ws0[x][j].1));
                assert(s0.watches_ok(ws0));
                assert(s0.entry_ok(x, ws0[x][j]));
                assert(self.clauses@[ws0[x][j].0 as int] == s0.clauses@[ws0[x][j].0 as int]);
            }
        }
        assert forall|c: int| #[trigger] self.live(c) && c != cr implies self.settled_clause(c, self.settled@) by {
            assert(s0.live(c));
            assert(self.clauses@[c] == s0.clauses@[c]);
            self.lemma_settled_clause_frame(s0, c, self.settled@, s0.settled@, u32::MAX as int);
        }
    }
}

impl Solver {
    /// Deleting a clause that is no variable's reason keeps the watch
    /// invariant.
    #[verifier::rlimit(80)]
    #[verifier::spinoff_prover]
    proof fn lemma_remove_watch(&self, s0: Solver, cr: usize)
        requires
            s0.inv(),
            s0.inv_watch(),
            s0.live(cr as int),
            self.same_but_clauses(s0),
            self.clauses@ == s0.clauses@.update(cr as int, self.clauses@[cr as int]),
            self.clauses@[cr as int].lits@.len() == 0,
            self.watches@.len() == s0.watches@.len(),
            forall|x: int| 0 <= x < s0.watches@.len() ==> #[trigger] self.watches@[x]@ == without_clause(s0.watches@[x]@, cr),
        ensures
            self.inv_watch(),
    {
        let ws = self.wview();
        let ws0 = s0.wview();
        assert forall|c: int| #[trigger] self.live(c) implies self.listed(ws, c) by {
            assert(c != cr);
            assert(self.clauses@[c] == s0.clauses@[c]);
            assert(s0.live(c));
            assert(s0.listed(ws0, c));
            let lc = self.clauses@[c].lits@;
            assert(clause_wf(lc, s0.nv()));
            let y0 = neg_of(lc[0] as int);
            let y1 = neg_of(lc[1] as int);
            let j0 = choose|j: int| 0 <= j < ws0[y0].len() && (#[trigger] ws0[y0][j]).0 == c;
            let j1 = choose|j: int| 0 <= j < ws0[y1].len() && (#[trigger] ws0[y1][j]).0 == c;
            assert(ws[y0] == without_clause(ws0[y0], cr));
            assert(ws[y1] == without_clause(ws0[y1], cr));
            assert(s0.watches_ok(ws0));
            lemma_without_clause(ws0[y0], cr);
            lemma_without_clause(ws0[y1], cr);
            assert(ws[y0].contains(ws0[y0][j0]));
            assert(ws[y1].contains(ws0[y1][j1]));
            let k0 = choose|k: int| 0 <= k < ws[y0].len() && ws[y0][k] == ws0[y0][j0];
            let k1 = choose|k: int| 0 <= k < ws[y1].len() && ws[y1][k] == ws0[y1][j1];
            assert(ws[y0][k0].0 == c);
            assert(ws[y1][k1].0 == c);
        }
        assert forall|x: int, j: int| 0 <= x < ws.len() && 0 <= j < ws[x].len() implies #[trigger] self.clauses@[ws[x][j].0 as int].lits@.contains(
            ws[x][j].1,
        ) by {
            assert(ws[x] == without_clause(ws0[x], cr));
            assert(s0.watches_ok(ws0));
            lemma_without_clause(ws0[x], cr);
            assert(ws0[x].contains(ws[x][j]));
            let j0 = choose|j0: int| 0 <= j0 < ws0[x].len() && ws0[x][j0] == ws[x][j];
            assert(s0.blockers_ok(ws0));
            assert(s0.clauses@[ws0[x][j0].0 as int].lits@.contains(ws0[x][j0].1));
            assert(ws[x][j].0 != cr);
            assert(s0.entry_ok(x, ws0[x][j0]));
            assert(self.clauses@[ws[x][j].0 as int] == s0.clauses@[ws[x][j].0 as int]);
        }
        assert forall|c: int| #[trigger] self.live(c) implies self.settled_clause(c, self.settled@) by {
            assert(c != cr);
            assert(self.clauses@[c] == s0.clauses@[c]);
            assert(s0.live(c));
            self.lemma_settled_clause_frame(s0, c, self.settled@, s0.settled@, u32::MAX as int);
        }
    }
}

impl Solver {
    /// The watch-list side of the state while the list of `p` is visited:
    /// the lists, with the list of `p` as visited so far, are complete and
    /// their blockers in their clauses; settledness is untouched.
    spec fn visiting_watch_base(&self, pre: Solver, p: Lit, wl: Seq<(usize, Lit)>, i: int, j: int) -> bool {
        let eff = self.wview().update(p as int, joined(wl, i, j));
        &&& self.complete(eff)
        &&& self.blockers_ok(eff)
        &&& self.settled == pre.settled
        &&& 0 <= self.settled@ < self.qhead
        &&& self.settled_upto(self.settled@)
    }

    /// As `visiting_watch_base`, and every clause kept in the list so far
    /// has a true literal.
    spec fn visiting_watch(&self, pre: Solver, p: Lit, wl: Seq<(usize, Lit)>, i: int, j: int) -> bool {
        &&& self.visiting_watch_base(pre, p, wl, i, j)
        &&& forall|b: int| 0 <= b < j ==> #[trigger] self.has_true(wl[b].0 as int)
    }
}

/// Exchanging two positions of a sequence keeps its elements.
pub proof fn lemma_swap_contains(l: Seq<Lit>, a: int, b: int)
    requires
        0 <= a < l.len(),
        0 <= b < l.len(),
    ensures
        forall|x: Lit| #[trigger] l.update(a, l[b]).update(b, l[a]).contains(x) == l.contains(x),
{
    let l2 = l.update(a, l[b]).update(b, l[a]);
    assert forall|x: Lit| #[trigger] l2.contains(x) == l.contains(x) by {
        if l.contains(x) {
            let i = choose|i: int| 0 <= i < l.len() && l[i] == x;
            let i2 = if i == a { b } else if i == b { a } else { i };
            assert(l2[i2] == x);
        }
        if l2.contains(x) {
            let i = choose|i: int| 0 <= i < l2.len() && l2[i] == x;
            let i2 = if i == a { b } else if i == b { a } else { i };
            assert(l[i2] == x);
        }
    }
}

impl Solver {
    /// Some literal of clause `c` is true exactly when a true literal is
    /// among its literals.
    proof fn lemma_has_true_contains(&self, c: int, t: Lit)
        requires
            self.clauses@[c].lits@.contains(t),
            self.is_true(t as int),
        ensures
            self.has_true(c),
    {
        let k = choose|k: int| 0 <= k < self.clauses@[c].lits@.len() && self.clauses@[c].lits@[k] == t;
        assert(self.is_true(self.clauses@[c].lits@[k] as int));
    }

    /// Truth survives an assignment that keeps every earlier value.
    proof fn lemma_has_true_grow(&self, pre: Solver, c: int)
        requires
            pre.has_true(c),
            self.clauses@ == pre.clauses@,
            pre.inv_sizes(),
            pre.inv_clauses(),
            0 <= c < pre.clauses@.len(),
            self.assigns@.len() == pre.assigns@.len(),
            forall|v: int| 0 <= v < pre.nv() && pre.assigned(v) ==> #[trigger] self.assigns@[v] == pre.assigns@[v],
        ensures
            self.has_true(c),
    {
        let l = pre.clauses@[c].lits@;
        let k = choose|k: int| 0 <= k < l.len() && #[trigger] pre.is_true(l[k] as int);
        assert(clause_wf(l, pre.nv()));
        assert(l[k] < 2 * pre.nv());
        assert(pre.assigned(var_of(l[k] as int)));
        assert(self.assigns@[var_of(l[k] as int)] == pre.assigns@[var_of(l[k] as int)]);
        assert(self.is_true(l[k] as int));
    }

    /// Exchanging the two watched literals of clause `cr` changes nothing
    /// the watch invariant looks at.
    proof fn lemma_swap01_watch(&self, post: Solver, cr: int, ws: Seq<Seq<(usize, Lit)>>)
        requires
            self.inv_sizes(),
            self.inv_clauses(),
            self.live(cr),
            self.complete(ws),
            self.blockers_ok(ws),
            self.watches_ok(ws),
            post.clauses@.len() == self.clauses@.len(),
            forall|c: int| 0 <= c < self.clauses@.len() && c != cr ==> #[trigger] post.clauses@[c] == self.clauses@[c],
            post.clauses@[cr].lits@ == self.clauses@[cr].lits@.update(0, self.clauses@[cr].lits@[1]).update(
                1,
                self.clauses@[cr].lits@[0],
            ),
            post.trail@ == self.trail@,
            post.assigns@ == self.assigns@,
            post.level@ == self.level@,
            post.num_vars == self.num_vars,
        ensures
            post.complete(ws),
            post.blockers_ok(ws),
            forall|s: int| #[trigger] self.settled_upto(s) ==> post.settled_upto(s),
            forall|c: int| 0 <= c < self.clauses@.len() ==> (#[trigger] post.has_true(c) == self.has_true(c)),
    {
        let l = self.clauses@[cr].lits@;
        let l2 = post.clauses@[cr].lits@;
        lemma_swap_contains(l, 0, 1);
        assert forall|c: int| #[trigger] post.live(c) implies post.listed(ws, c) by {
            assert(self.live(c));
            assert(self.listed(ws, c));
            if c == cr {
                let y0 = neg_of(l[0] as int);
                let y1 = neg_of(l[1] as int);
                let j0 = choose|j: int| 0 <= j < ws[y0].len() && (#[trigger] ws[y0][j]).0 == c;
                let j1 = choose|j: int| 0 <= j < ws[y1].len() && (#[trigger] ws[y1][j]).0 == c;
                assert(l2[0] == l[1]);
                assert(l2[1] == l[0]);
                assert(ws[neg_of(l2[0] as int)][j1].0 == c);
                assert(ws[neg_of(l2[1] as int)][j0].0 == c);
            }
        }
        assert forall|x: int, j: int| 0 <= x < ws.len() && 0 <= j < ws[x].len() implies #[trigger] post.clauses@[ws[x][j].0 as int].lits@.contains(
            ws[x][j].1,
        ) by {
            assert(self.clauses@[ws[x][j].0 as int].lits@.contains(ws[x][j].1));
            assert(self.entry_ok(x, ws[x][j]));
            if ws[x][j].0 as int == cr {
                assert(l2.contains(ws[x][j].1) == l.contains(ws[x][j].1));
            }
        }
        assert forall|c: int| 0 <= c < self.clauses@.len() implies (#[trigger] post.has_true(c) == self.has_true(c)) by {
            if c == cr {
                if self.has_true(c) {
                    let k = choose|k: int| 0 <= k < l.len() && #[trigger] self.is_true(l[k] as int);
                    assert(l.contains(l[k]));
                    assert(l2.contains(l[k]));
                    post.lemma_has_true_contains(c, l[k]);
                }
                if post.has_true(c) {
                    let k = choose|k: int| 0 <= k < l2.len() && #[trigger] post.is_true(l2[k] as int);
                    assert(l2.contains(l2[k]));
                    assert(l.contains(l2[k]));
                    self.lemma_has_true_contains(c, l2[k]);
                }
            } else {
                let lc = self.clauses@[c].lits@;
                if self.has_true(c) {
                    let k = choose|k: int| 0 <= k < lc.len() && #[trigger] self.is_true(lc[k] as int);
                    assert(post.is_true(post.clauses@[c].lits@[k] as int));
                }
                if post.has_true(c) {
                    let k = choose|k: int| 0 <= k < lc.len() && #[trigger] post.is_true(post.clauses@[c].lits@[k] as int);
                    assert(self.is_true(lc[k] as int));
                }
            }
        }
        assert forall|s: int| #[trigger] self.settled_upto(s) implies post.settled_upto(s) by {
            assert forall|c: int| #[trigger] post.live(c) implies post.settled_clause(c, s) by {
                assert(self.live(c));
                assert(self.settled_clause(c, s));
                if c == cr {
                    assert forall|w: int| 0 <= w < 2 && #[trigger] post.falsified_before(l2[w] as int, s) implies post.true_upto(
                        cr,
                        post.level@[var_of(l2[w] as int)] as int,
                    ) by {
                        let w2 = 1 - w;
                        assert(l2[w] == l[w2]);
                        assert(self.falsified_before(l[w2] as int, s));
                        assert(self.true_upto(cr, self.level@[var_of(l[w2] as int)] as int));
                        let k = choose|k: int|
                            0 <= k < l.len() && #[trigger] self.is_true(l[k] as int) && self.level@[var_of(l[k] as int)]
                                <= self.level@[var_of(l[w2] as int)];
                        let k2 = if k == 0 {
                            1int
                        } else if k == 1 {
                            0int
                        } else {
                            k
                        };
                        assert(l2[k2] == l[k]);
                        assert(post.is_true(l2[k2] as int));
                    }
                    assert(post.falsified_before(l2[0] as int, s) ==> post.true_upto(
                        cr,
                        post.level@[var_of(l2[0] as int)] as int,
                    ));
                    assert(post.falsified_before(l2[1] as int, s) ==> post.true_upto(
                        cr,
                        post.level@[var_of(l2[1] as int)] as int,
                    ));
                } else {
                    post.lemma_settled_clause_frame(*self, c, s, s, u32::MAX as int);
                }
            }
        }
    }
}

impl Solver {
    /// Moving the watch of clause `cr` from its false second literal to its
    /// non-false literal `k` keeps the watch lists complete with their
    /// blockers in place, and keeps every settledness fact.
    proof fn lemma_found_watch(&self, post: Solver, cr: int, k: int, e0: Seq<(usize, Lit)>, j: int, p: int)
        requires
            self.inv_sizes(),
            self.inv_clauses(),
            self.inv_trail(),
            0 <= p < 2 * self.nv(),
            self.watches@[p]@ == Seq::<(usize, Lit)>::empty(),
            self.watches_ok(self.wview().update(p, e0)),
            self.complete(self.wview().update(p, e0)),
            self.blockers_ok(self.wview().update(p, e0)),
            0 <= j < e0.len(),
            e0[j].0 == cr,
            self.live(cr),
            2 <= k < self.clauses@[cr].lits@.len(),
            self.clauses@[cr].lits@[1] as int == neg_of(p),
            self.is_true(p),
            !self.is_false(self.clauses@[cr].lits@[k] as int),
            post.clauses@.len() == self.clauses@.len(),
            forall|c: int| 0 <= c < self.clauses@.len() && c != cr ==> #[trigger] post.clauses@[c] == self.clauses@[c],
            post.clauses@[cr].lits@ == self.clauses@[cr].lits@.update(1, self.clauses@[cr].lits@[k]).update(
                k,
                self.clauses@[cr].lits@[1],
            ),
            post.watches@.len() == self.watches@.len(),
            post.watches@[neg_of(self.clauses@[cr].lits@[k] as int)]@ == self.watches@[neg_of(
                self.clauses@[cr].lits@[k] as int,
            )]@.push((cr as usize, self.clauses@[cr].lits@[0])),
            forall|x: int|
                0 <= x < self.watches@.len() && x != neg_of(self.clauses@[cr].lits@[k] as int)
                    ==> #[trigger] post.watches@[x] == self.watches@[x],
            post.trail@ == self.trail@,
            post.assigns@ == self.assigns@,
            post.level@ == self.level@,
            post.num_vars == self.num_vars,
        ensures
            post.complete(post.wview().update(p, e0.remove(j))),
            post.blockers_ok(post.wview().update(p, e0.remove(j))),
            forall|s: int| 0 <= s <= self.trail@.len() && #[trigger] self.settled_upto(s) ==> post.settled_upto(s),
            forall|c: int| 0 <= c < self.clauses@.len() && c != cr ==> (#[trigger] post.has_true(c) == self.has_true(c)),
    {
        let l = self.clauses@[cr].lits@;
        let l2 = post.clauses@[cr].lits@;
        let lk = l[k] as int;
        let y = neg_of(lk);
        let first = l[0];
        lemma_swap_contains(l, 1, k);
        lemma_value_of_neg(self.assigns@, p);
        assert(clause_wf(l, self.nv()));
        assert(var_of(l[0] as int) != var_of(lk) && var_of(l[1] as int) != var_of(lk));
        assert(var_of(l[0] as int) != var_of(l[1] as int));
        assert(y != p);
        assert(y != neg_of(l[0] as int));
        assert(neg_of(l[0] as int) != p);
        let ws = self.wview().update(p, e0);
        let ws2 = post.wview().update(p, e0.remove(j));
        assert(post.wview().len() == post.watches@.len());
        assert(self.wview().len() == self.watches@.len());
        assert forall|x: int| 0 <= x < ws2.len() && x != y && x != p implies #[trigger] ws2[x] == ws[x] by {
            assert(post.watches@[x] == self.watches@[x]);
        }
        assert(ws2[y] == ws[y].push((cr as usize, first)));
        assert(ws2[p] == e0.remove(j));
        assert(ws[p] == e0);
        assert forall|c: int| #[trigger] post.live(c) implies post.listed(ws2, c) by {
            assert(self.live(c));
            assert(self.listed(ws, c));
            let lc = self.clauses@[c].lits@;
            let y0 = neg_of(lc[0] as int);
            let y1 = neg_of(lc[1] as int);
            let j0 = choose|jj: int| 0 <= jj < ws[y0].len() && (#[trigger] ws[y0][jj]).0 == c;
            let j1 = choose|jj: int| 0 <= jj < ws[y1].len() && (#[trigger] ws[y1][jj]).0 == c;
            if c != cr {
                assert(!(y0 == p && j0 == j));
                assert(!(y1 == p && j1 == j));
                let n0 = if y0 == p && j0 > j { j0 - 1 } else { j0 };
                let n1 = if y1 == p && j1 > j { j1 - 1 } else { j1 };
                assert(ws2[y0][n0] == ws[y0][j0]);
                assert(ws2[y1][n1] == ws[y1][j1]);
                assert(post.clauses@[c] == self.clauses@[c]);
            } else {
                assert(l2[0] == l[0]);
                assert(l2[1] == l[k]);
                assert(y0 == neg_of(l[0] as int));
                assert(!(y0 == p && j0 == j));
                assert(ws2[y0][j0] == ws[y0][j0]);
                assert(ws2[y][ws[y].len() as int].0 == cr);
            }
        }
        assert forall|x: int, jj: int| 0 <= x < ws2.len() && 0 <= jj < ws2[x].len() implies #[trigger] post.clauses@[ws2[x][jj].0 as int].lits@.contains(
            ws2[x][jj].1,
        ) by {
            if x == y && jj == ws[y].len() {
                assert(ws2[x][jj] == (cr as usize, first));
                assert(l2[0] == first);
                assert(l2.contains(first));
            } else {
                let oj = if x == p && jj >= j { jj + 1 } else { jj };
                assert(ws2[x][jj] == ws[x][oj]);
                assert(self.clauses@[ws[x][oj].0 as int].lits@.contains(ws[x][oj].1));
                assert(self.entry_ok(x, ws[x][oj]));
                if ws[x][oj].0 as int == cr {
                    assert(l2.contains(ws[x][oj].1) == l.contains(ws[x][oj].1));
                }
            }
        }
        assert forall|c: int| 0 <= c < self.clauses@.len() && c != cr implies (#[trigger] post.has_true(c) == self.has_true(c)) by {
            let lc = self.clauses@[c].lits@;
            if self.has_true(c) {
                let kk = choose|kk: int| 0 <= kk < lc.len() && #[trigger] self.is_true(lc[kk] as int);
                assert(post.is_true(post.clauses@[c].lits@[kk] as int));
            }
            if post.has_true(c) {
                let kk = choose|kk: int| 0 <= kk < lc.len() && #[trigger] post.is_true(post.clauses@[c].lits@[kk] as int);
                assert(self.is_true(lc[kk] as int));
            }
        }
        assert forall|s: int| 0 <= s <= self.trail@.len() && #[trigger] self.settled_upto(s) implies post.settled_upto(s) by {
            assert forall|c: int| #[trigger] post.live(c) implies post.settled_clause(c, s) by {
                assert(self.live(c));
                assert(self.settled_clause(c, s));
                if c == cr {
                    if post.falsified_before(l2[1] as int, s) {
                        self.lemma_falsified_false(l[k] as int, s);
                    }
                    if post.falsified_before(l2[0] as int, s) {
                        assert(l2[0] == l[0]);
                        assert(self.true_upto(cr, self.level@[var_of(l[0] as int)] as int));
                        let kk = choose|kk: int|
                            0 <= kk < l.len() && #[trigger] self.is_true(l[kk] as int) && self.level@[var_of(l[kk] as int)]
                                <= self.level@[var_of(l[0] as int)];
                        let k2 = if kk == 1 {
                            k
                        } else if kk == k {
                            1int
                        } else {
                            kk
                        };
                        assert(l2[k2] == l[kk]);
                        assert(post.is_true(l2[k2] as int));
                        assert(post.true_upto(cr, post.level@[var_of(l2[0] as int)] as int));
                    }
                } else {
                    assert(post.clauses@[c] == self.clauses@[c]);
                    post.lemma_settled_clause_frame(*self, c, s, s, u32::MAX as int);
                }
            }
        }
    }
}

impl Solver {
    /// Re-blocking an entry with a literal of its clause keeps the lists
    /// complete with their blockers in place.
    proof fn lemma_reblock_watch(&self, ws: Seq<Seq<(usize, Lit)>>, p: int, e0: Seq<(usize, Lit)>, j: int, first: Lit)
        requires
            0 <= p < ws.len(),
            self.inv_clauses(),
            ws.len() == 2 * self.nv(),
            self.complete(ws.update(p, e0)),
            self.blockers_ok(ws.update(p, e0)),
            0 <= j < e0.len(),
            self.clauses@[e0[j].0 as int].lits@.contains(first),
        ensures
            self.complete(ws.update(p, e0.update(j, (e0[j].0, first)))),
            self.blockers_ok(ws.update(p, e0.update(j, (e0[j].0, first)))),
    {
        let w1 = ws.update(p, e0);
        let w2 = ws.update(p, e0.update(j, (e0[j].0, first)));
        assert forall|c: int| #[trigger] self.live(c) implies self.listed(w2, c) by {
            assert(self.listed(w1, c));
            let lc = self.clauses@[c].lits@;
            assert(clause_wf(lc, self.nv()));
            let y0 = neg_of(lc[0] as int);
            let y1 = neg_of(lc[1] as int);
            let j0 = choose|jj: int| 0 <= jj < w1[y0].len() && (#[trigger] w1[y0][jj]).0 == c;
            let j1 = choose|jj: int| 0 <= jj < w1[y1].len() && (#[trigger] w1[y1][jj]).0 == c;
            assert(w2[y0][j0].0 == w1[y0][j0].0);
            assert(w2[y1][j1].0 == w1[y1][j1].0);
        }
        assert forall|x: int, jj: int| 0 <= x < w2.len() && 0 <= jj < w2[x].len() implies #[trigger] self.clauses@[w2[x][jj].0 as int].lits@.contains(
            w2[x][jj].1,
        ) by {
            if x != p || jj != j {
                assert(w2[x][jj] == w1[x][jj]);
            }
        }
    }

    /// An assigned variable's level is at most the current decision level.
    proof fn lemma_level_bound(&self, l: int)
        requires
            self.inv_sizes(),
            self.inv_trail_gen(false),
            0 <= l < 2 * self.nv(),
            self.assigned(var_of(l)),
        ensures
            self.level@[var_of(l)] <= self.trail_lim@.len(),
    {
        let i = choose|i: int| 0 <= i < self.trail@.len() && var_of(#[trigger] self.trail@[i] as int) == var_of(l);
        assert(self.at_level(i, self.level@[var_of(self.trail@[i] as int)] as int));
    }

    /// Once every clause watching the complement of trail literal `p` (at
    /// position `sp`, on the newest level) has a true literal, the trail is
    /// settled one position further.
    proof fn lemma_settle_step(&self, sp: int)
        requires
            self.inv_sizes(),
            self.inv_clauses(),
            self.inv_trail(),
            self.watches_ok(self.wview()),
            self.complete(self.wview()),
            self.settled_upto(sp),
            0 <= sp < self.trail@.len(),
            self.level@[var_of(self.trail@[sp] as int)] == self.trail_lim@.len(),
            forall|b: int|
                0 <= b < self.wview()[self.trail@[sp] as int].len() ==> #[trigger] self.has_true(
                    self.wview()[self.trail@[sp] as int][b].0 as int,
                ),
        ensures
            self.settled_upto(sp + 1),
    {
        let p = self.trail@[sp] as int;
        let f = neg_of(p);
        let ws = self.wview();
        assert(p < 2 * self.nv());
        assert(neg_of(f) == p);
        assert forall|c: int| #[trigger] self.live(c) implies self.settled_clause(c, sp + 1) by {
            let l = self.clauses@[c].lits@;
            assert(clause_wf(l, self.nv()));
            assert(self.settled_clause(c, sp));
            assert forall|w: int| 0 <= w < 2 && #[trigger] self.falsified_before(l[w] as int, sp + 1) implies self.true_upto(
                c,
                self.level@[var_of(l[w] as int)] as int,
            ) by {
                if l[w] as int == f {
                    assert(self.listed(ws, c));
                    assert(neg_of(l[w] as int) == p);
                    let b = choose|b: int| 0 <= b < ws[neg_of(l[w] as int)].len() && (#[trigger] ws[neg_of(l[w] as int)][b]).0 == c;
                    assert(self.has_true(ws[p][b].0 as int));
                    let k = choose|k: int| 0 <= k < l.len() && #[trigger] self.is_true(l[k] as int);
                    lemma_value_of_neg(self.assigns@, l[k] as int);
                    self.lemma_level_bound(l[k] as int);
                    assert(var_of(l[w] as int) == var_of(p));
                    assert(self.is_true(self.clauses@[c].lits@[k] as int));
                } else {
                    let j = choose|jj: int| 0 <= jj < sp + 1 && self.trail@[jj] as int == neg_of(l[w] as int);
                    assert(j != sp);
                    assert(self.falsified_before(l[w] as int, sp));
                }
            }
            assert(self.falsified_before(l[0] as int, sp + 1) ==> self.true_upto(c, self.level@[var_of(l[0] as int)] as int));
            assert(self.falsified_before(l[1] as int, sp + 1) ==> self.true_upto(c, self.level@[var_of(l[1] as int)] as int));
        }
    }
}

impl Solver {
    /// Settledness depends only on the clauses, the trail and the
    /// assignment.
    proof fn lemma_settled_same(&self, pre: Solver, s: int)
        requires
            pre.settled_upto(s),
            self.clauses@ == pre.clauses@,
            self.trail@ == pre.trail@,
            self.assigns@ == pre.assigns@,
            self.level@ == pre.level@,
        ensures
            self.settled_upto(s),
    {
        assert forall|c: int| #[trigger] self.live(c) implies self.settled_clause(c, s) by {
            assert(pre.live(c));
            self.lemma_settled_clause_frame(pre, c, s, s, u32::MAX as int);
        }
    }
}

impl Solver {
    /// A clause settled in `pre` stays settled when its literals, the
    /// falsification of its watched literals and the assignments at levels up
    /// to `lim` (which covers the levels of its falsified watched literals)
    /// are kept.
    proof fn lemma_settled_clause_frame(&self, pre: Solver, c: int, s: int, s_pre: int, lim: int)
        requires
            pre.settled_clause(c, s_pre),
            self.clauses@[c].lits@ == pre.clauses@[c].lits@,
            self.falsified_before(self.clauses@[c].lits@[0] as int, s) ==> {
                &&& pre.falsified_before(pre.clauses@[c].lits@[0] as int, s_pre)
                &&& pre.level@[var_of(pre.clauses@[c].lits@[0] as int)] <= lim
                &&& self.level@[var_of(pre.clauses@[c].lits@[0] as int)] == pre.level@[var_of(
                    pre.clauses@[c].lits@[0] as int,
                )]
            },
            self.falsified_before(self.clauses@[c].lits@[1] as int, s) ==> {
                &&& pre.falsified_before(pre.clauses@[c].lits@[1] as int, s_pre)
                &&& pre.level@[var_of(pre.clauses@[c].lits@[1] as int)] <= lim
                &&& self.level@[var_of(pre.clauses@[c].lits@[1] as int)] == pre.level@[var_of(
                    pre.clauses@[c].lits@[1] as int,
                )]
            },
            forall|k: int|
                #![trigger pre.clauses@[c].lits@[k]]
                0 <= k < pre.clauses@[c].lits@.len() && pre.is_true(pre.clauses@[c].lits@[k] as int) && pre.level@[var_of(
                    pre.clauses@[c].lits@[k] as int,
                )] <= lim ==> self.is_true(pre.clauses@[c].lits@[k] as int) && self.level@[var_of(
                    pre.clauses@[c].lits@[k] as int,
                )] == pre.level@[var_of(pre.clauses@[c].lits@[k] as int)],
        ensures
            self.settled_clause(c, s),
    {
        let l = pre.clauses@[c].lits@;
        assert forall|w: int| 0 <= w < 2 && #[trigger] self.falsified_before(l[w] as int, s) implies self.true_upto(
            c,
            self.level@[var_of(l[w] as int)] as int,
        ) by {
            assert(pre.true_upto(c, pre.level@[var_of(l[w] as int)] as int));
            let k = choose|k: int|
                0 <= k < l.len() && #[trigger] pre.is_true(l[k] as int) && pre.level@[var_of(l[k] as int)]
                    <= pre.level@[var_of(l[w] as int)];
            assert(self.is_true(self.clauses@[c].lits@[k] as int));
        }
        assert(self.falsified_before(l[0] as int, s) ==> self.true_upto(c, self.level@[var_of(l[0] as int)] as int));
        assert(self.falsified_before(l[1] as int, s) ==> self.true_upto(c, self.level@[var_of(l[1] as int)] as int));
    }
}

impl Solver {
    /// Clause `c` has no true literal and at most one literal that is not
    /// false: it is falsified, or it forces its one remaining literal.
    pub open spec fn unit_or_false(&self, c: int) -> bool {
        &&& !self.satisfied(c)
        &&& forall|a: int, b: int|
            0 <= a < self.clause_lits(c).len() && 0 <= b < self.clause_lits(c).len() && a != b ==> self.is_false(
                #[trigger] self.clause_lits(c)[a] as int,
            ) || self.is_false(#[trigger] self.clause_lits(c)[b] as int)
    }

    /// Once everything is propagated, no stored clause is false or unit.
    proof fn lemma_no_conflict(&self)
        requires
            self.inv(),
            self.inv_watch(),
            self.settled(),
            self.qhead == self.trail@.len(),
        ensures
            forall|c: int| #[trigger] self.live(c) ==> !self.unit_or_false(c),
    {
        assert forall|c: int| #[trigger] self.live(c) implies !self.unit_or_false(c) by {
            let l = self.clauses@[c].lits@;
            assert(clause_wf(l, self.nv()));
            assert(self.settled_clause(c, self.settled@));
            if !self.satisfied(c) {
                assert forall|w: int| 0 <= w < 2 implies !self.is_false(#[trigger] l[w] as int) by {
                    if self.is_false(l[w] as int) {
                        self.lemma_false_on_trail(l[w] as int);
                        assert(self.true_upto(c, self.level@[var_of(l[w] as int)] as int));
                        let k = choose|k: int| 0 <= k < l.len() && #[trigger] self.is_true(l[k] as int) && self.level@[var_of(
                            l[k] as int,
                        )] <= self.level@[var_of(l[w] as int)];
                        assert(self.is_true(self.clause_lits(c)[k] as int));
                    }
                }
                assert(!self.is_false(self.clause_lits(c)[0] as int));
                assert(!self.is_false(self.clause_lits(c)[1] as int));
            }
        }
    }
}

impl Solver {
    /// Some literal of clause `c` is true under the current assignment.
    pub open spec fn satisfied(&self, c: int) -> bool {
        exists|k: int| 0 <= k < self.clause_lits(c).len() && #[trigger] self.is_true(self.clause_lits(c)[k] as int)
    }

    /// With every trail literal propagated to completion and every variable
    /// assigned, the assignment satisfies every clause of the database:
    /// each live clause has a true literal.
    pub proof fn lemma_model(&self)
        requires
            self.inv(),
            self.inv_watch(),
            self.settled(),
            self.qhead_view() == self.trail_view().len(),
            forall|v: int| 0 <= v < self.nv() ==> #[trigger] self.assigned(v),
        ensures
            forall|c: int| #[trigger] self.live(c) ==> self.satisfied(c),
    {
        assert forall|c: int| #[trigger] self.live(c) implies self.satisfied(c) by {
            let l = self.clauses@[c].lits@;
            assert(clause_wf(l, self.nv()));
            if !self.is_true(l[0] as int) && !self.is_true(l[1] as int) {
                assert(self.assigned(var_of(l[0] as int)));
                assert(self.assigned(var_of(l[1] as int)));
                lemma_value_of_neg(self.assigns@, l[0] as int);
                lemma_value_of_neg(self.assigns@, l[1] as int);
                assert(self.assigns@[var_of(l[0] as int)] <= 2);
                assert(self.is_false(l[0] as int));
                assert(self.is_false(l[1] as int));
                self.lemma_false_on_trail(l[0] as int);
                self.lemma_false_on_trail(l[1] as int);
                assert(self.settled_clause(c, self.settled@));
                let k = choose|k: int| 0 <= k < l.len() && #[trigger] self.is_true(l[k] as int) && self.level@[var_of(
                    l[k] as int,
                )] <= (if self.level@[var_of(l[0] as int)] >= self.level@[var_of(l[1] as int)] {
                    self.level@[var_of(l[0] as int)]
                } else {
                    self.level@[var_of(l[1] as int)]
                });
                assert(self.is_true(self.clause_lits(c)[k] as int));
            } else if self.is_true(l[0] as int) {
                assert(self.is_true(self.clause_lits(c)[0] as int));
            } else {
                assert(self.is_true(self.clause_lits(c)[1] as int));
            }
        }
    }
}

// ---------------------------------------------------------------------------
// Conflict analysis
// ---------------------------------------------------------------------------

/// The number of trail positions below `k` whose variable is marked in `seen`
/// and assigned at level `d`.
pub open spec fn count_top(seen: Seq<bool>, level: Seq<u32>, t: Seq<Lit>, d: int, k: int) -> int
    decreases k,
{
    if k <= 0 {
        0
    } else {
        count_top(seen, level, t, d, k - 1) + if seen[var_of(t[k - 1] as int)] && level[var_of(
            t[k - 1] as int,
        )] == d {
            1int
        } else {
            0int
        }
    }
}

pub proof fn lemma_count_bounds(seen: Seq<bool>, level: Seq<u32>, t: Seq<Lit>, d: int, k: int)
    ensures
        0 <= count_top(seen, level, t, d, k),
        k >= 0 ==> count_top(seen, level, t, d, k) <= k,
    decreases k,
{
    if k > 0 {
        lemma_count_bounds(seen, level, t, d, k - 1);
    }
}

/// Marking a variable that occurs at no position below `k` leaves the count.
pub proof fn lemma_count_mark_absent(seen: Seq<bool>, level: Seq<u32>, t: Seq<Lit>, d: int, v: int, k: int)
    requires
        0 <= v < seen.len(),
        forall|q: int| 0 <= q < k ==> var_of(#[trigger] t[q] as int) != v && var_of(t[q] as int) < seen.len(),
    ensures
        count_top(seen.update(v, true), level, t, d, k) == count_top(seen, level, t, d, k),
    decreases k,
{
    if k > 0 {
        lemma_count_mark_absent(seen, level, t, d, v, k - 1);
    }
}

/// Marking the unmarked variable of position `q0 < k` adds one to the count
/// when it is at level `d`.
pub proof fn lemma_count_mark(seen: Seq<bool>, level: Seq<u32>, t: Seq<Lit>, d: int, q0: int, k: int)
    requires
        0 <= q0 < k <= t.len(),
        0 <= var_of(t[q0] as int) < seen.len(),
        forall|q: int| 0 <= q < t.len() ==> var_of(#[trigger] t[q] as int) < seen.len(),
        !seen[var_of(t[q0] as int)],
        forall|a: int, b: int|
            0 <= a < t.len() && 0 <= b < t.len() && a != b ==> var_of(#[trigger] t[a] as int) != var_of(
                #[trigger] t[b] as int,
            ),
    ensures
        count_top(seen.update(var_of(t[q0] as int), true), level, t, d, k) == count_top(seen, level, t, d, k)
            + if level[var_of(t[q0] as int)] == d {
            1int
        } else {
            0int
        },
    decreases k,
{
    let v = var_of(t[q0] as int);
    if k - 1 == q0 {
        assert forall|q: int| 0 <= q < q0 implies var_of(#[trigger] t[q] as int) != v && var_of(t[q] as int) < seen.len() by {
            assert(var_of(t[q] as int) != var_of(t[q0] as int));
        }
        lemma_count_mark_absent(seen, level, t, d, v, q0);
    } else {
        lemma_count_mark(seen, level, t, d, q0, k - 1);
        assert(var_of(t[k - 1] as int) != v);
    }
}

/// A positive count has a marked position at level `d` below `k`.
pub proof fn lemma_count_witness(seen: Seq<bool>, level: Seq<u32>, t: Seq<Lit>, d: int, k: int)
    requires
        count_top(seen, level, t, d, k) > 0,
    ensures
        exists|q: int|
            0 <= q < k && seen[var_of(t[q] as int)] && #[trigger] level[var_of(t[q] as int)] == d,
    decreases k,
{
    if k > 0 {
        if !(seen[var_of(t[k - 1] as int)] && level[var_of(t[k - 1] as int)] == d) {
            lemma_count_witness(seen, level, t, d, k - 1);
        }
    }
}

/// With no position below `k` at level `d`, the count is zero.
pub proof fn lemma_count_none(seen: Seq<bool>, level: Seq<u32>, t: Seq<Lit>, d: int, k: int)
    requires
        forall|q: int| 0 <= q < k ==> #[trigger] level[var_of(t[q] as int)] != d,
    ensures
        count_top(seen, level, t, d, k) == 0,
    decreases k,
{
    if k > 0 {
        lemma_count_none(seen, level, t, d, k - 1);
    }
}

impl Solver {
    /// Literal `l` of a learnt clause must stay: its variable was decided, or
    /// its reason has a literal outside the clause's implication set (a
    /// variable neither marked nor fixed at level 0).
    pub closed spec fn keeps(&self, l: Lit) -> bool {
        let v = var_of(l as int);
        let r = self.reason@[v];
        r == REASON_UNDEF || exists|k: int|
            1 <= k < self.clauses@[r as int].lits@.len() && !self.seen@[var_of(
                #[trigger] self.clauses@[r as int].lits@[k] as int,
            )] && self.level@[var_of(self.clauses@[r as int].lits@[k] as int)] > 0
    }

    /// Drops from `learnt[1..]` every literal implied by the others (its
    /// reason's other variables are all marked or fixed at level 0).
    fn minimize_clause(&self, learnt: &mut Vec<Lit>)
        requires
            self.inv_sizes(),
            self.inv_clauses(),
            self.inv_trail(),
            self.seen@.len() == self.nv(),
            old(learnt)@.len() >= 1,
            forall|k: int|
                1 <= k < old(learnt)@.len() ==> (#[trigger] old(learnt)@[k]) < 2 * self.nv() && self.is_false(
                    old(learnt)@[k] as int,
                ),
        ensures
            final(learnt)@ == seq![old(learnt)@[0]] + old(learnt)@.subrange(1, old(learnt)@.len() as int).filter(
                |l: Lit| self.keeps(l),
            ),
    {
        let ghost orig = learnt@;
        let ghost f = |l: Lit| self.keeps(l);
        let n = learnt.len();
        let mut j: usize = 1;
        let mut i: usize = 1;
        proof {
            assert(orig.subrange(1, 1).filter(f) =~= Seq::<Lit>::empty()) by {
                reveal(Seq::filter);
            }
            assert(learnt@.subrange(0, 1) =~= seq![orig[0]] + orig.subrange(1, 1).filter(f));
        }
        while i < n
            invariant
                1 <= j <= i <= n,
                n == learnt@.len(),
                n == orig.len(),
                learnt@.subrange(0, j as int) == seq![orig[0]] + orig.subrange(1, i as int).filter(f),
                forall|b: int| i <= b < n ==> #[trigger] learnt@[b] == orig[b],
                forall|k: int| 1 <= k < n ==> (#[trigger] orig[k]) < 2 * self.nv() && self.is_false(orig[k] as int),
                f == (|l: Lit| self.keeps(l)),
                self.inv_sizes(),
                self.inv_clauses(),
                self.inv_trail(),
                self.seen@.len() == self.nv(),
            decreases n - i,
        {
            let l = learnt[i];
            let var = lit_var(l);
            proof {
                assert(orig[i as int] == l);
                self.lemma_false_on_trail(l as int);
                self.lemma_assigned_reason(var as int);
            }
            let keep: bool;
            if self.reason[var as usize] == REASON_UNDEF {
                keep = true;
            } else {
                let cr = self.reason[var as usize] as usize;
                let rlen = self.clauses[cr].lits.len();
                let mut dominated = true;
                let mut k: usize = 1;
                while k < rlen
                    invariant_except_break
                        dominated,
                        forall|k2: int|
                            1 <= k2 < k ==> !(!self.seen@[var_of(#[trigger] self.clauses@[cr as int].lits@[k2] as int)]
                                && self.level@[var_of(self.clauses@[cr as int].lits@[k2] as int)] > 0),
                    invariant
                        1 <= k <= rlen,
                        rlen == self.clauses@[cr as int].lits@.len(),
                        cr as int == self.reason@[var as int] as int,
                        (cr as int) < self.clauses@.len(),
                        self.inv_clauses(),
                        self.inv_sizes(),
                        self.seen@.len() == self.nv(),
                    ensures
                        dominated ==> forall|k2: int|
                            1 <= k2 < rlen ==> !(!self.seen@[var_of(#[trigger] self.clauses@[cr as int].lits@[k2] as int)]
                                && self.level@[var_of(self.clauses@[cr as int].lits@[k2] as int)] > 0),
                        !dominated ==> exists|k2: int|
                            1 <= k2 < rlen && !self.seen@[var_of(#[trigger] self.clauses@[cr as int].lits@[k2] as int)]
                                && self.level@[var_of(self.clauses@[cr as int].lits@[k2] as int)] > 0,
                    decreases rlen - k,
                {
                    proof {
                        assert(clause_wf(self.clauses@[cr as int].lits@, self.nv()));
                    }
                    let rv = lit_var(self.clauses[cr].lits[k]);
                    if !self.seen[rv as usize] && self.level[rv as usize] > 0 {
                        dominated = false;
                        break;
                    }
                    k = k + 1;
                }
                keep = !dominated;
                proof {
                    let r = self.reason@[var as int];
                    assert(cr as int == r as int);
                    if dominated {
                        assert(!self.keeps(l));
                    } else {
                        let k2 = choose|k2: int|
                            1 <= k2 < rlen && !self.seen@[var_of(#[trigger] self.clauses@[cr as int].lits@[k2] as int)]
                                && self.level@[var_of(self.clauses@[cr as int].lits@[k2] as int)] > 0;
                        assert(self.clauses@[r as int].lits@[k2] == self.clauses@[cr as int].lits@[k2]);
                        assert(self.keeps(l));
                    }
                }
            }
            proof {
                assert(f(l) == self.keeps(l));
                assert(keep == f(l));
            }
            let ghost before = learnt@.subrange(0, j as int);
            if keep {
                learnt.set(j, l);
                j = j + 1;
                proof {
                    assert(learnt@.subrange(0, j as int) =~= before.push(l));
                }
            } else {
                proof {
                    assert(learnt@.subrange(0, j as int) =~= before);
                }
            }
            proof {
                assert(orig.subrange(1, i + 1) =~= orig.subrange(1, i as int).push(l));
                orig.subrange(1, i as int).lemma_filter_push(l, f);
                assert(learnt@.subrange(0, j as int) =~= seq![orig[0]] + orig.subrange(1, i + 1).filter(f));
            }
            i = i + 1;
        }
        learnt.truncate(j);
        proof {
            assert(orig.subrange(1, n as int) =~= orig.subrange(1, i as int));
            assert(learnt@ =~= seq![orig[0]] + orig.subrange(1, n as int).filter(f));
        }
    }

    /// An assigned variable's reason, when it has one, is a live clause.
    proof fn lemma_assigned_reason(&self, v: int)
        requires
            self.inv_sizes(),
            self.inv_trail(),
            0 <= v < self.nv(),
            self.assigned(v),
        ensures
            self.reason@[v] != REASON_UNDEF ==> self.live(self.reason@[v] as int),
    {
        let i = choose|i: int| 0 <= i < self.trail@.len() && var_of(#[trigger] self.trail@[i] as int) == v;
        assert(self.reason_ok(i));
    }
}

/// The result of conflict analysis: the learnt clause (its first literal the
/// one to assert), the level to backjump to, the variables met (in the order
/// they were marked) and the clauses resolved (the conflict first).
pub struct Analysis {
    pub learnt: Vec<Lit>,
    pub btlevel: u32,
    pub bumped: Vec<Var>,
    pub visited: Vec<usize>,
}

impl Solver {
    /// `self` differs from `other` at most in the marks used by analysis.
    pub closed spec fn same_but_scratch(&self, other: Solver) -> bool {
        &&& self.num_vars == other.num_vars
        &&& self.num_original_clauses == other.num_original_clauses
        &&& self.clauses@ == other.clauses@
        &&& self.watches@ == other.watches@
        &&& self.assigns@ == other.assigns@
        &&& self.level@ == other.level@
        &&& self.reason@ == other.reason@
        &&& self.trail@ == other.trail@
        &&& self.trail_lim@ == other.trail_lim@
        &&& self.qhead == other.qhead
        &&& self.heap == other.heap
        &&& self.heap_filled == other.heap_filled
        &&& self.decisions == other.decisions
        &&& self.propagations == other.propagations
        &&& self.settled == other.settled
        &&& self.formula == other.formula
        &&& self.dropped == other.dropped
    }

    /// A learnt clause and backjump level as conflict analysis produces them:
    /// every literal is false; the first is the only one at the current
    /// level; the others are above level 0 and at most `btlevel`, which the
    /// second one reaches; no variable occurs twice.
    pub closed spec fn analysis_ok(&self, learnt: Seq<Lit>, btlevel: u32) -> bool {
        let d = self.trail_lim@.len();
        &&& learnt.len() >= 1
        &&& forall|k: int| 0 <= k < learnt.len() ==> (#[trigger] learnt[k]) < 2 * self.nv() && self.is_false(learnt[k] as int)
        &&& self.level@[var_of(learnt[0] as int)] == d
        &&& forall|k: int| 1 <= k < learnt.len() ==> 0 < #[trigger] self.level@[var_of(learnt[k] as int)] <= btlevel
        &&& btlevel < d
        &&& (learnt.len() == 1 <==> btlevel == 0)
        &&& learnt.len() >= 2 ==> self.level@[var_of(learnt[1] as int)] == btlevel
        &&& distinct_vars(learnt)
    }

    /// What `analysis_ok` means over the public views: `learnt` is a false
    /// clause over distinct variables whose first literal is the only one
    /// at the current level, whose other literals lie at levels from 1 to
    /// `btlevel`, the second at `btlevel` itself, and `btlevel` is 0 exactly
    /// when `learnt` is a unit.
    pub proof fn lemma_analysis_ok_views(&self, learnt: Seq<Lit>, btlevel: u32)
        ensures
            self.analysis_ok(learnt, btlevel) <==> {
                &&& learnt.len() >= 1
                &&& forall|k: int| 0 <= k < learnt.len() ==> (#[trigger] learnt[k]) < 2 * self.nv() && self.is_false(
                    learnt[k] as int,
                )
                &&& self.level_of(var_of(learnt[0] as int)) == self.dlevel()
                &&& forall|k: int| 1 <= k < learnt.len() ==> 0 < #[trigger] self.level_of(var_of(learnt[k] as int))
                    <= btlevel
                &&& btlevel < self.dlevel()
                &&& (learnt.len() == 1 <==> btlevel == 0)
                &&& learnt.len() >= 2 ==> self.level_of(var_of(learnt[1] as int)) == btlevel
                &&& distinct_vars(learnt)
            },
    {
        if self.analysis_ok(learnt, btlevel) {
            assert forall|k: int| 1 <= k < learnt.len() implies 0 < #[trigger] self.level_of(
                var_of(learnt[k] as int),
            ) <= btlevel by {
                assert(0 < self.level@[var_of(learnt[k] as int)] <= btlevel);
            }
        }
        if forall|k: int| 1 <= k < learnt.len() ==> 0 < #[trigger] self.level_of(var_of(learnt[k] as int))
            <= btlevel {
            assert forall|k: int| 1 <= k < learnt.len() implies 0 < #[trigger] self.level@[var_of(
                learnt[k] as int,
            )] <= btlevel by {
                assert(0 < self.level_of(var_of(learnt[k] as int)) <= btlevel);
            }
        }
    }

    /// Trail position `i` holds a marked variable of level `d`.
    spec fn resolved_at(&self, i: int, d: int) -> bool {
        self.seen@[var_of(self.trail@[i] as int)] && self.level@[var_of(self.trail@[i] as int)] == d
    }

    /// Variable `v` occurs in the reason of the literal at trail position
    /// `i`, past its first literal.
    spec fn in_reason(&self, i: int, v: int) -> bool {
        let r = self.reason@[var_of(self.trail@[i] as int)] as int;
        exists|k: int| 1 <= k < self.clauses@[r].lits@.len() && var_of(#[trigger] self.clauses@[r].lits@[k] as int) == v
    }

    /// Variable `v` occurs in clause `cc`.
    spec fn in_clause(&self, cc: int, v: int) -> bool {
        exists|k: int| 0 <= k < self.clauses@[cc].lits@.len() && var_of(#[trigger] self.clauses@[cc].lits@[k] as int) == v
    }

    /// Variable `v` was reached by conflict analysis: it occurs in the
    /// conflicting clause `cc`, or in the reason of a marked position of
    /// level `d` above `above`.
    spec fn src_of(&self, cc: int, d: int, v: int, above: int) -> bool {
        ||| self.in_clause(cc, v)
        ||| exists|i: int| above < i < self.trail@.len() && #[trigger] self.resolved_at(i, d) && self.in_reason(i, v)
    }

    /// Every marked variable was reached from `cc` through resolutions above
    /// `above`.
    spec fn provenance(&self, cc: int, d: int, above: int) -> bool {
        forall|v: int| 0 <= v < self.nv() && #[trigger] self.seen@[v] ==> self.src_of(cc, d, v, above)
    }

    /// Every marked position of level `d` from `from` on was resolved only
    /// because another marked position of that level below it had been
    /// reached from resolutions above it.
    spec fn first_stop(&self, cc: int, d: int, from: int) -> bool {
        forall|i: int|
            from <= i < self.trail@.len() && #[trigger] self.resolved_at(i, d) ==> exists|j: int|
                0 <= j < i && #[trigger] self.resolved_at(j, d) && self.src_of(cc, d, var_of(self.trail@[j] as int), i)
    }

    /// Reaching a variable stays true when the marks grow and the bound
    /// goes down.
    proof fn lemma_src_grow(&self, s0: Solver, cc: int, d: int, v: int, a: int, b: int)
        requires
            s0.src_of(cc, d, v, b),
            0 <= a <= b,
            s0.inv_sizes(),
            s0.inv_trail(),
            self.clauses@ == s0.clauses@,
            self.trail@ == s0.trail@,
            self.level@ == s0.level@,
            self.reason@ == s0.reason@,
            self.num_vars == s0.num_vars,
            self.seen@.len() == s0.seen@.len(),
            forall|w: int| 0 <= w < s0.nv() && #[trigger] s0.seen@[w] ==> self.seen@[w],
        ensures
            self.src_of(cc, d, v, a),
    {
        if s0.in_clause(cc, v) {
            let k = choose|k: int| 0 <= k < s0.clauses@[cc].lits@.len() && var_of(#[trigger] s0.clauses@[cc].lits@[k] as int) == v;
            assert(var_of(self.clauses@[cc].lits@[k] as int) == v);
        } else {
            let i = choose|i: int| b < i < s0.trail@.len() && #[trigger] s0.resolved_at(i, d) && s0.in_reason(i, v);
            assert(s0.trail@[i] < 2 * s0.nv());
            assert(self.resolved_at(i, d));
            let r = s0.reason@[var_of(s0.trail@[i] as int)] as int;
            let k = choose|k: int| 1 <= k < s0.clauses@[r].lits@.len() && var_of(#[trigger] s0.clauses@[r].lits@[k] as int) == v;
            assert(var_of(self.clauses@[r].lits@[k] as int) == v);
            assert(self.in_reason(i, v));
        }
    }

    /// One round of analysis (marking the literals of clause `rc`, then
    /// walking down to the next marked position `q`) keeps every mark
    /// reached, and every resolved position justified.
    proof fn lemma_uip_step(
        &self,
        s_b: Solver,
        cc: int,
        d: int,
        rc: int,
        start: int,
        p_old: Lit,
        ti_old: int,
        q: int,
    )
        requires
            s_b.provenance(cc, d, ti_old),
            s_b.first_stop(cc, d, ti_old + 1),
            p_old != LIT_UNDEF ==> exists|j: int|
                0 <= j < ti_old && #[trigger] s_b.resolved_at(j, d) && s_b.src_of(cc, d, var_of(s_b.trail@[j] as int), ti_old),
            s_b.inv_sizes(),
            s_b.inv_trail(),
            self.clauses@ == s_b.clauses@,
            self.trail@ == s_b.trail@,
            self.level@ == s_b.level@,
            self.reason@ == s_b.reason@,
            self.num_vars == s_b.num_vars,
            self.seen@.len() == s_b.seen@.len(),
            forall|w: int| 0 <= w < s_b.nv() && #[trigger] s_b.seen@[w] ==> self.seen@[w],
            forall|v: int|
                0 <= v < self.nv() && #[trigger] self.seen@[v] && !s_b.seen@[v] ==> exists|kk: int|
                    start <= kk < self.clauses@[rc].lits@.len() && var_of(self.clauses@[rc].lits@[kk] as int) == v,
            p_old == LIT_UNDEF ==> rc == cc && ti_old == s_b.trail@.len(),
            p_old != LIT_UNDEF ==> start == 1 && 0 <= ti_old < s_b.trail@.len() && s_b.resolved_at(ti_old, d)
                && rc == s_b.reason@[var_of(s_b.trail@[ti_old] as int)] as int,
            0 <= start,
            0 <= q < ti_old,
            forall|i: int| q < i < ti_old ==> !#[trigger] self.resolved_at(i, d),
            forall|i: int|
                ti_old <= i < self.trail@.len() ==> self.seen@[var_of(#[trigger] self.trail@[i] as int)]
                    == s_b.seen@[var_of(self.trail@[i] as int)],
        ensures
            self.provenance(cc, d, q),
            self.first_stop(cc, d, q + 1),
    {
        let t = self.trail@;
        assert forall|v: int| 0 <= v < self.nv() && #[trigger] self.seen@[v] implies self.src_of(cc, d, v, q) by {
            if s_b.seen@[v] {
                self.lemma_src_grow(s_b, cc, d, v, q, ti_old);
            } else {
                let kk = choose|kk: int| start <= kk < self.clauses@[rc].lits@.len() && var_of(self.clauses@[rc].lits@[kk] as int) == v;
                if p_old == LIT_UNDEF {
                    assert(var_of(self.clauses@[cc].lits@[kk] as int) == v);
                    assert(self.in_clause(cc, v));
                } else {
                    assert(t[ti_old] < 2 * s_b.nv());
                    assert(self.resolved_at(ti_old, d));
                    assert(var_of(self.clauses@[rc].lits@[kk] as int) == v);
                    assert(self.in_reason(ti_old, v));
                }
            }
        }
        assert forall|i: int| q + 1 <= i < t.len() && #[trigger] self.resolved_at(i, d) implies exists|j: int|
            0 <= j < i && #[trigger] self.resolved_at(j, d) && self.src_of(cc, d, var_of(t[j] as int), i) by {
            if i < ti_old {
                assert(false);
            } else {
                let j = if i == ti_old {
                    choose|j: int| 0 <= j < ti_old && #[trigger] s_b.resolved_at(j, d) && s_b.src_of(cc, d, var_of(s_b.trail@[j] as int), ti_old)
                } else {
                    choose|j: int| 0 <= j < i && #[trigger] s_b.resolved_at(j, d) && s_b.src_of(cc, d, var_of(s_b.trail@[j] as int), i)
                };
                if i == ti_old {
                    assert(p_old != LIT_UNDEF);
                } else {
                    assert(self.seen@[var_of(self.trail@[i] as int)] == s_b.seen@[var_of(self.trail@[i] as int)]);
                    assert(s_b.resolved_at(i, d));
                }
                assert(t[j] < 2 * s_b.nv());
                assert(self.resolved_at(j, d));
                self.lemma_src_grow(s_b, cc, d, var_of(t[j] as int), i, i);
            }
        }
    }

    /// A positive count below `k` has a marked position of level `d` below
    /// `k`.
    proof fn lemma_count_witness(&self, d: int, k: int)
        requires
            0 <= k,
            count_top(self.seen@, self.level@, self.trail@, d, k) > 0,
        ensures
            exists|j: int| 0 <= j < k && #[trigger] self.resolved_at(j, d),
        decreases k,
    {
        if k > 0 {
            if self.resolved_at(k - 1, d) {
            } else {
                self.lemma_count_witness(d, k - 1);
                let j = choose|j: int| 0 <= j < k - 1 && #[trigger] self.resolved_at(j, d);
                assert(self.resolved_at(j, d));
            }
        }
    }

    /// The marks and the list of marked variables agree, and each marked
    /// variable is assigned above level 0.
    spec fn marks_ok(&self, d: int) -> bool {
        &&& self.seen@.len() == self.nv()
        &&& forall|m: int|
            0 <= m < self.analyze_toclear@.len() ==> (#[trigger] self.analyze_toclear@[m]) < self.nv()
                && self.seen@[self.analyze_toclear@[m] as int]
        &&& forall|v: int|
            0 <= v < self.nv() && #[trigger] self.seen@[v] ==> self.analyze_toclear@.contains(v as Var)
                && self.assigned(v) && 0 < self.level@[v] <= d
        &&& self.analyze_toclear@.no_duplicates()
    }

    /// The lower-level literals gathered so far: false, marked, over distinct
    /// variables assigned strictly between level 0 and level `d`.
    spec fn gathered_ok(&self, learnt: Seq<Lit>, d: int) -> bool {
        &&& learnt.len() >= 1
        &&& forall|k: int|
            1 <= k < learnt.len() ==> (#[trigger] learnt[k]) < 2 * self.nv() && self.is_false(learnt[k] as int)
                && 0 < self.level@[var_of(learnt[k] as int)] < d && self.seen@[var_of(learnt[k] as int)]
        &&& distinct_vars(learnt.subrange(1, learnt.len() as int))
    }

    /// Derives a clause from the conflicting clause `conflict_clause` by
    /// resolving away the current-level literals in reverse trail order
    /// until one remains (the first unique implication point), minimizes it,
    /// and picks the level to backjump to.
    #[verifier::rlimit(70)]
    #[verifier::spinoff_prover]
    pub fn analyze(&mut self, conflict_clause: usize) -> (res: Analysis)
        requires
            old(self).inv(),
            old(self).inv_watch(),
            old(self).inv_sound(),
            old(self).dlevel() > 0,
            old(self).conflicting(conflict_clause as int),
            old(self).has_lit_at_top_level(conflict_clause as int),
        ensures
            final(self).refuted_ok() == old(self).refuted_ok(),
            final(self).inv(),
            final(self).inv_watch(),
            final(self).inv_sound(),
            final(self).formula() == old(self).formula(),
            final(self).dropped() == old(self).dropped(),
            final(self).heap_ready() == old(self).heap_ready(),
            final(self).settled() == old(self).settled(),
            final(self).same_but_scratch(*old(self)),
            final(self).analysis_ok(res.learnt@, res.btlevel),
            implies_clause(final(self).formula(), final(self).nv(), res.learnt@),
            final(self).db_implies(res.learnt@),
            final(self).uip_learnt(conflict_clause as int, res.bumped@, res.learnt@),
            final(self).first_uip(conflict_clause as int, res.bumped@, res.learnt@),
            final(self).visits_resolved(conflict_clause as int, res.bumped@, res.learnt@, res.visited@),
            res.visited@.no_duplicates(),
            res.bumped@.no_duplicates(),
            forall|m: int| 0 <= m < res.bumped@.len() ==> (#[trigger] res.bumped@[m]) < final(self).nv(),
            forall|k: int|
                0 <= k < res.learnt@.len() ==> res.bumped@.contains(#[trigger] var_of(res.learnt@[k] as int) as Var),
            res.visited@.len() >= 1,
            res.visited@[0] == conflict_clause,
            forall|m: int| 0 <= m < res.visited@.len() ==> final(self).live(#[trigger] res.visited@[m] as int),
    {
        let mut learnt: Vec<Lit> = Vec::new();
        let cur_level = self.decision_level();
        let mut counter: usize = 0;
        let mut p: Lit = LIT_UNDEF;
        let mut reason_cr = conflict_clause;
        let mut trail_idx = self.trail.len();
        let mut visited: Vec<usize> = Vec::new();
        let ghost mut ps: Seq<int> = Seq::empty();
        learnt.push(0);
        proof {
            self.lemma_dlevel_bound();
        }
        self.analyze_toclear.clear();
        let ghost d = cur_level as int;
        let ghost t = self.trail@;
        let ghost pre = *old(self);
        proof {
            self.lemma_trail_frame(*old(self), true);
            assert forall|v: int| 0 <= v < self.nv() implies !#[trigger] self.seen@[v] by {
                assert(!old(self).seen@[v]);
            }
            assert forall|q: int| 0 <= q < t.len() implies !#[trigger] self.seen@[var_of(t[q] as int)] by {
                assert(t[q] < 2 * self.nv());
            }
            lemma_count_all_unmarked(self.seen@, self.level@, t, d, t.len() as int);
            self.lemma_conflict_frame(*old(self), conflict_clause as int);
            assert(self.gathered_ok(learnt@, d)) by {
                assert(learnt@.subrange(1, 1) =~= Seq::<Lit>::empty());
            }
            assert forall|c: int| 0 <= c < self.clauses@.len() implies clause_wf(#[trigger] self.clauses@[c].lits@, self.nv()) by {
                assert(clause_wf(old(self).clauses@[c].lits@, old(self).nv()));
            }
        }
        loop
            invariant_except_break
                p == LIT_UNDEF ==> trail_idx == t.len() && reason_cr == conflict_clause,
                p != LIT_UNDEF ==> {
                    &&& self.reason@[var_of(p as int)] != REASON_UNDEF
                    &&& reason_cr as int == self.reason@[var_of(p as int)] as int
                    &&& counter >= 1
                },
                self.live(reason_cr as int),
                p != LIT_UNDEF ==> exists|j: int|
                    0 <= j < trail_idx && #[trigger] self.resolved_at(j, d) && self.src_of(
                        conflict_clause as int,
                        d,
                        var_of(t[j] as int),
                        trail_idx as int,
                    ),
            invariant
                self.refuted == old(self).refuted,
                self.provenance(conflict_clause as int, d, trail_idx as int),
                self.first_stop(conflict_clause as int, d, trail_idx + 1),
                self.analyzing(pre, d, t, learnt@, counter as int, trail_idx as int, p, conflict_clause as int),
                cur_level == d,
                visited@.len() >= 1 || p == LIT_UNDEF,
                visited@.len() == if p == LIT_UNDEF {
                    0
                } else {
                    ps.len() + 1
                },
                p == LIT_UNDEF ==> ps.len() == 0,
                forall|m: int|
                    0 <= m < ps.len() ==> trail_idx < #[trigger] ps[m] < t.len() && self.resolved_at(ps[m], d)
                        && visited@[m + 1] as int == self.reason@[var_of(t[ps[m]] as int)] as int,
                forall|a: int, b: int| 0 <= a < b < ps.len() ==> #[trigger] ps[a] > #[trigger] ps[b],
                forall|i: int|
                    trail_idx < i < t.len() && #[trigger] self.resolved_at(i, d) ==> exists|m: int|
                        0 <= m < ps.len() && ps[m] == i,
                visited@.len() >= 1 ==> visited@[0] == conflict_clause,
                forall|m: int| 0 <= m < visited@.len() ==> self.live(#[trigger] visited@[m] as int),
                self.gathers_all(learnt@, d),
                p != LIT_UNDEF ==> self.closed_from(conflict_clause as int, 0),
                self.resolved_above(trail_idx as int, d),
            ensures
                trail_idx < t.len(),
                t[trail_idx as int] == p,
                counter == 0,
                (p as int) < 2 * self.nv(),
                self.seen@[var_of(p as int)],
                self.level@[var_of(p as int)] == d,
                visited@.len() >= 1,
                visited@[0] == conflict_clause,
            decreases trail_idx,
        {
            let ghost s_b = *self;
            let ghost ti_old = trail_idx as int;
            let ghost p_old = p;
            let ghost rc = reason_cr as int;
            visited.push(reason_cr);
            let start: usize = if p == LIT_UNDEF {
                0
            } else {
                1
            };
            proof {
                self.lemma_resolvable(conflict_clause as int, reason_cr as int, p, trail_idx as int, start as int);
            }
            counter = self.mark_clause_lits(
                &mut learnt,
                reason_cr,
                start,
                trail_idx,
                counter,
                cur_level,
                Ghost(pre),
                Ghost(conflict_clause as int),
                Ghost(p),
            );
            proof {
                lemma_count_bounds(self.seen@, self.level@, t, d, trail_idx as int);
                if p == LIT_UNDEF {
                    self.lemma_conflict_counts(conflict_clause as int, d, counter as int);
                }
            }
            let ghost c_mark = counter as int;
            let q = self.walk_back(trail_idx, counter, Ghost(d));
            trail_idx = q;
            p = self.trail[trail_idx];
            proof {
                self.lemma_found_top(trail_idx as int, d, counter as int);
                self.lemma_analysis_step(s_b, conflict_clause as int, rc, p_old, ti_old, q as int, c_mark, d);
                lemma_count_gap(self.seen@, self.level@, t, d, q + 1, ti_old);
                assert forall|i: int| q < i < ti_old implies !#[trigger] self.resolved_at(i, d) by {
                    assert(!(self.seen@[var_of(t[i] as int)] && self.level@[var_of(t[i] as int)] == d));
                }
                self.lemma_uip_step(s_b, conflict_clause as int, d, rc, start as int, p_old, ti_old, q as int);
                let ps0 = ps;
                if p_old != LIT_UNDEF {
                    ps = ps.push(ti_old);
                }
                self.lemma_visit_step(s_b, d, ps0, ps, ti_old, q as int, p_old, visited@);
            }
            counter = counter - 1;
            if counter == 0 {
                break;
            }
            proof {
                self.lemma_has_reason(trail_idx as int, d, counter as int);
                self.lemma_count_witness(d, trail_idx as int);
                let j = choose|j: int| 0 <= j < trail_idx && #[trigger] self.resolved_at(j, d);
                assert(t[j] < 2 * self.nv());
                assert(self.seen@[var_of(t[j] as int)]);
            }
            reason_cr = self.reason[lit_var(p) as usize] as usize;
        }
        proof {
            lemma_value_of_neg(self.assigns@, p as int);
            self.lemma_trail_true(trail_idx as int);
        }
        let ghost gathered = learnt@;
        learnt.set(0, lit_neg(p));
        proof {
            assert(learnt@.subrange(1, learnt@.len() as int) =~= gathered.subrange(1, gathered.len() as int));
            assert(learnt@.len() == gathered.len());
            assert(learnt@[0] == lit_neg_spec(p));
        }
        self.minimize_clause(&mut learnt);
        let ghost minimized = learnt@;
        proof {
            self.lemma_minimized(gathered, minimized, p, d);
        }
        let btlevel = self.backjump_level(&mut learnt);
        proof {
            self.lemma_learnt_ok(minimized, learnt@, btlevel, d);
            lemma_count_gap(self.seen@, self.level@, t, d, 0, trail_idx as int);
            self.lemma_sound_same(*old(self));
            assert(self.learnt_context(conflict_clause as int, trail_idx as int, d, gathered, minimized));
            self.lemma_learnt_implied(conflict_clause as int, trail_idx as int, d, gathered, minimized);
            self.lemma_uip_learnt(conflict_clause as int, trail_idx as int, d, gathered, minimized, learnt@);
            self.lemma_first_uip(conflict_clause as int, d, trail_idx as int);
            self.lemma_visits(conflict_clause as int, d, trail_idx as int, ps, visited@);
            assert(self.visits_resolved(conflict_clause as int, self.analyze_toclear@, learnt@, visited@));
            assert forall|m: int| 0 <= m < ps.len() implies self.reason@[var_of(self.trail@[#[trigger] ps[m]] as int)]
                != REASON_UNDEF by {
                assert(self.resolved_at(ps[m], d));
                assert(self.trail@[ps[m]] < 2 * self.nv());
            }
            self.lemma_visited_distinct(conflict_clause as int, trail_idx as int, ps, visited@);
            assert(learnt@[0] == minimized[0]);
            assert(self.first_uip(conflict_clause as int, self.analyze_toclear@, learnt@));
            assert forall|x: Lit| #[trigger] minimized.contains(x) implies learnt@.contains(x) by {
                let k = choose|k: int| 0 <= k < minimized.len() && minimized[k] == x;
                assert(learnt@.contains(minimized[k]));
            }
            lemma_implies_same_lits(self.formula@, self.nv(), minimized, learnt@);
            assert forall|m: Seq<bool>| #[trigger] self.holds_db(m) implies clause_holds(m, learnt@) by {
                assert(clause_holds(m, minimized));
                let k = choose|k: int| 0 <= k < minimized.len() && #[trigger] lit_holds(m, minimized[k]);
                assert(minimized.contains(minimized[k]));
                assert(learnt@.contains(minimized[k]));
                let k2 = choose|k2: int| 0 <= k2 < learnt@.len() && learnt@[k2] == minimized[k];
                assert(lit_holds(m, learnt@[k2]));
            }
        }
        let ghost marked = self.analyze_toclear@;
        let ghost s_m = *self;
        proof {
            assert(marked.subrange(0, marked.len() as int) =~= marked);
        }
        let mut m: usize = 0;
        while m < self.analyze_toclear.len()
            invariant
                self.refuted == old(self).refuted,
                self.analyze_toclear@ == marked,
                m <= marked.len(),
                self.seen@.len() == self.nv(),
                forall|a: int| 0 <= a < marked.len() ==> (#[trigger] marked[a]) < self.nv(),
                forall|v: int|
                    0 <= v < self.nv() && #[trigger] self.seen@[v] ==> marked.subrange(m as int, marked.len() as int).contains(
                        v as Var,
                    ),
                self.same_but_scratch(*old(self)),
            decreases marked.len() - m,
        {
            let v = self.analyze_toclear[m];
            self.seen.set(v as usize, false);
            proof {
                assert forall|w: int|
                    0 <= w < self.nv() && #[trigger] self.seen@[w] implies marked.subrange(m + 1, marked.len() as int).contains(
                    w as Var,
                ) by {
                    let a = choose|a: int| 0 <= a < marked.len() - m && marked.subrange(m as int, marked.len() as int)[a] == w as Var;
                    assert(a != 0);
                    assert(marked.subrange(m + 1, marked.len() as int)[a - 1] == w as Var);
                }
            }
            m = m + 1;
        }
        let mut bumped: Vec<Var> = Vec::new();
        std::mem::swap(&mut bumped, &mut self.analyze_toclear);
        proof {
            assert(bumped@ == marked);
            self.lemma_uip_same(s_m, conflict_clause as int, marked, learnt@);
            self.lemma_first_uip_same(s_m, conflict_clause as int, marked, learnt@);
            self.lemma_visits_same(s_m, conflict_clause as int, marked, learnt@, visited@);
            self.lemma_inv_back(*old(self));
            self.lemma_watch_frame(*old(self));
            self.lemma_sound_same(*old(self));
            assert(self.clauses@ == s_m.clauses@ && self.trail@ == s_m.trail@ && self.level@ == s_m.level@);
            assert forall|m: Seq<bool>| #[trigger] self.holds_db(m) implies clause_holds(m, learnt@) by {
                assert forall|c: int| #[trigger] s_m.live(c) implies clause_holds(m, s_m.clauses@[c].lits@) by {
                    assert(self.live(c));
                }
                assert forall|i: int|
                    0 <= i < s_m.trail@.len() && s_m.level@[var_of(s_m.trail@[i] as int)] == 0 implies lit_holds(
                    m,
                    #[trigger] s_m.trail@[i],
                ) by {
                    assert(lit_holds(m, self.trail@[i]));
                }
                assert(s_m.holds_db(m));
            }
        }
        Analysis { learnt, btlevel, bumped, visited }
    }
}

/// With no marked position below `k`, the count is zero.
pub proof fn lemma_count_all_unmarked(seen: Seq<bool>, level: Seq<u32>, t: Seq<Lit>, d: int, k: int)
    requires
        forall|q: int| 0 <= q < k ==> !#[trigger] seen[var_of(t[q] as int)],
    ensures
        count_top(seen, level, t, d, k) == 0,
    decreases k,
{
    if k > 0 {
        lemma_count_all_unmarked(seen, level, t, d, k - 1);
    }
}

/// A marked position at level `d` below `k` makes the count positive.
pub proof fn lemma_count_pos(seen: Seq<bool>, level: Seq<u32>, t: Seq<Lit>, d: int, q: int, k: int)
    requires
        0 <= q < k,
        seen[var_of(t[q] as int)],
        level[var_of(t[q] as int)] == d,
    ensures
        count_top(seen, level, t, d, k) >= 1,
    decreases k,
{
    lemma_count_bounds(seen, level, t, d, k - 1);
    if q < k - 1 {
        lemma_count_pos(seen, level, t, d, q, k - 1);
    }
}

/// Filtering keeps variables distinct.
pub proof fn lemma_filter_distinct(s: Seq<Lit>, f: spec_fn(Lit) -> bool)
    requires
        distinct_vars(s),
    ensures
        distinct_vars(s.filter(f)),
        forall|x: Lit| s.filter(f).contains(x) ==> s.contains(x),
    decreases s.len(),
{
    broadcast use vstd::seq_lib::group_seq_properties;
    if s.len() == 0 {
        assert(s.filter(f) =~= Seq::<Lit>::empty()) by {
            reveal(Seq::filter);
        }
    } else {
        let s0 = s.drop_last();
        let e = s.last();
        assert(s =~= s0.push(e));
        assert(distinct_vars(s0)) by {
            assert forall|a: int, b: int|
                0 <= a < s0.len() && 0 <= b < s0.len() && a != b implies var_of(s0[a] as int) != var_of(
                s0[b] as int,
            ) by {
                assert(s0[a] == s[a] && s0[b] == s[b]);
            }
        }
        lemma_filter_distinct(s0, f);
        s0.lemma_filter_push(e, f);
        assert forall|x: Lit| s.filter(f).contains(x) implies s.contains(x) by {
            if x != e {
                assert(s0.filter(f).contains(x));
                assert(s0.contains(x));
                let i = choose|i: int| 0 <= i < s0.len() && s0[i] == x;
                assert(s[i] == x);
            } else {
                assert(s[s.len() - 1] == x);
            }
        }
        if f(e) {
            let fs = s0.filter(f);
            assert forall|a: int, b: int|
                0 <= a < fs.push(e).len() && 0 <= b < fs.push(e).len() && a != b implies var_of(
                fs.push(e)[a] as int,
            ) != var_of(fs.push(e)[b] as int) by {
                if a == fs.len() || b == fs.len() {
                    let o = if a == fs.len() { b } else { a };
                    assert(fs.contains(fs[o]));
                    assert(s0.contains(fs[o]));
                    let i = choose|i: int| 0 <= i < s0.len() && s0[i] == fs[o];
                    assert(s[i] == fs[o]);
                    assert(var_of(s[i] as int) != var_of(s[s.len() - 1] as int));
                }
            }
        }
    }
}

impl Solver {
    proof fn lemma_trail_true(&self, i: int)
        requires
            self.inv_trail_gen(false),
            0 <= i < self.trail@.len(),
        ensures
            self.is_true(self.trail@[i] as int),
            self.trail@[i] < 2 * self.nv(),
    {
    }

    /// The literals still to be resolved were falsified before the walk
    /// position.
    proof fn lemma_resolvable(&self, cc: int, r: int, p: Lit, trail_idx: int, start: int)
        requires
            self.inv_sizes(),
            self.inv_clauses(),
            self.inv_trail(),
            self.live(r),
            p == LIT_UNDEF ==> trail_idx == self.trail@.len() && r == cc && start == 0 && self.conflicting(cc),
            p != LIT_UNDEF ==> {
                &&& 0 <= trail_idx < self.trail@.len()
                &&& self.trail@[trail_idx] == p
                &&& self.reason@[var_of(p as int)] != REASON_UNDEF
                &&& r == self.reason@[var_of(p as int)] as int
                &&& start == 1
            },
        ensures
            forall|kk: int|
                start <= kk < self.clauses@[r].lits@.len() ==> #[trigger] self.falsified_before(
                    self.clauses@[r].lits@[kk] as int,
                    trail_idx,
                ),
    {
        if p == LIT_UNDEF {
            assert forall|kk: int| start <= kk < self.clauses@[r].lits@.len() implies #[trigger] self.falsified_before(
                self.clauses@[r].lits@[kk] as int,
                trail_idx,
            ) by {
                assert(self.inv_clauses());
                assert(clause_wf(self.clauses@[r].lits@, self.nv()));
                self.lemma_false_on_trail(self.clauses@[r].lits@[kk] as int);
            }
        } else {
            assert(self.reason_ok(trail_idx));
        }
    }

    /// Marking the variable of a literal falsified at position `q0` before
    /// the walk position.
    proof fn lemma_mark(&self, s0: Solver, lit: int, q0: int, trail_idx: int, d: int, learnt: Seq<Lit>)
        requires
            s0.inv_sizes(),
            s0.inv_trail(),
            d == s0.trail_lim@.len(),
            0 <= lit < 2 * s0.nv(),
            0 <= q0 < trail_idx <= s0.trail@.len(),
            s0.trail@[q0] as int == neg_of(lit),
            !s0.seen@[var_of(lit)],
            s0.level@[var_of(lit)] > 0,
            s0.gathered_ok(learnt, d),
            self.seen@ == s0.seen@.update(var_of(lit), true),
            self.same_but_scratch(s0),
            self.analyze_toclear@ == s0.analyze_toclear@,
        ensures
            count_top(self.seen@, self.level@, self.trail@, d, trail_idx) == count_top(
                s0.seen@,
                s0.level@,
                s0.trail@,
                d,
                trail_idx,
            ) + if self.level@[var_of(lit)] == d {
                1int
            } else {
                0int
            },
            self.level@[var_of(lit)] <= d,
            self.assigned(var_of(lit)),
            self.is_false(lit),
            self.gathered_ok(learnt, d),
            forall|v: int| 0 <= v < self.nv() && s0.seen@[v] ==> #[trigger] self.seen@[v],
    {
        let t = s0.trail@;
        assert(var_of(t[q0] as int) == var_of(lit));
        assert forall|q: int| 0 <= q < t.len() implies var_of(#[trigger] t[q] as int) < s0.seen@.len() by {
            assert(t[q] < 2 * s0.nv());
        }
        lemma_count_mark(s0.seen@, s0.level@, t, d, q0, trail_idx);
        assert(s0.at_level(q0, s0.level@[var_of(t[q0] as int)] as int));
        assert(s0.is_true(t[q0] as int));
        lemma_value_of_neg(s0.assigns@, t[q0] as int);
        assert(neg_of(t[q0] as int) == lit);
        assert forall|k: int|
            1 <= k < learnt.len() implies (#[trigger] learnt[k]) < 2 * self.nv() && self.is_false(learnt[k] as int)
            && 0 < self.level@[var_of(learnt[k] as int)] < d && self.seen@[var_of(learnt[k] as int)] by {
            assert(s0.seen@[var_of(learnt[k] as int)]);
        }
    }

    proof fn lemma_gather(&self, s0: Solver, lb: Seq<Lit>, lit: Lit, d: int)
        requires
            s0.gathered_ok(lb, d),
            self.gathered_ok(lb, d),
            !s0.seen@[var_of(lit as int)],
            forall|v: int| 0 <= v < self.nv() && s0.seen@[v] ==> #[trigger] self.seen@[v],
            s0.seen@.len() == self.nv(),
            (lit as int) < 2 * self.nv(),
            self.is_false(lit as int),
            0 < self.level@[var_of(lit as int)] < d,
            self.seen@[var_of(lit as int)],
        ensures
            self.gathered_ok(lb.push(lit), d),
    {
        let nb = lb.push(lit);
        assert forall|k: int|
            1 <= k < nb.len() implies (#[trigger] nb[k]) < 2 * self.nv() && self.is_false(nb[k] as int)
            && 0 < self.level@[var_of(nb[k] as int)] < d && self.seen@[var_of(nb[k] as int)] by {
            if k < lb.len() {
                assert(nb[k] == lb[k]);
            }
        }
        let a = lb.subrange(1, lb.len() as int);
        let b = nb.subrange(1, nb.len() as int);
        assert(b =~= a.push(lit));
        assert forall|x: int, y: int|
            0 <= x < b.len() && 0 <= y < b.len() && x != y implies var_of(b[x] as int) != var_of(b[y] as int) by {
            if x == a.len() || y == a.len() {
                let o = if x == a.len() { y } else { x };
                assert(b[o] == lb[o + 1]);
                assert(s0.seen@[var_of(lb[o + 1] as int)]);
            } else {
                assert(b[x] == a[x] && b[y] == a[y]);
            }
        }
    }

    proof fn lemma_marks_push(&self, s0: Solver, tc: Seq<Var>, v: int, d: int)
        requires
            s0.marks_ok(d),
            tc == s0.analyze_toclear@,
            self.analyze_toclear@ == tc.push(v as Var),
            self.seen@ == s0.seen@.update(v, true),
            0 <= v < self.nv(),
            !s0.seen@[v],
            self.assigned(v),
            0 < self.level@[v] <= d,
            self.same_but_scratch(s0),
        ensures
            self.marks_ok(d),
    {
        let nt = tc.push(v as Var);
        assert forall|m: int| 0 <= m < nt.len() implies (#[trigger] nt[m]) < self.nv() && self.seen@[nt[m] as int] by {
            if m < tc.len() {
                assert(nt[m] == tc[m]);
            }
        }
        assert forall|w: int|
            0 <= w < self.nv() && #[trigger] self.seen@[w] implies nt.contains(w as Var) && self.assigned(w) && 0
            < self.level@[w] <= d by {
            if w != v {
                assert(s0.seen@[w]);
                let m = choose|m: int| 0 <= m < tc.len() && tc[m] == w as Var;
                assert(nt[m] == w as Var);
            } else {
                assert(nt[tc.len() as int] == v as Var);
            }
        }
        assert forall|a: int, b: int| 0 <= a < nt.len() && 0 <= b < nt.len() && a != b implies nt[a] != nt[b] by {
            if a == tc.len() || b == tc.len() {
                let o = if a == tc.len() { b } else { a };
                assert(s0.seen@[tc[o] as int]);
            }
        }
    }

    /// Processing the conflict clause marks a current-level variable.
    proof fn lemma_conflict_counts(&self, cc: int, d: int, counter: int)
        requires
            self.inv_sizes(),
            self.inv_clauses(),
            self.inv_trail(),
            self.live(cc),
            self.conflicting(cc),
            self.has_lit_at_top_level(cc),
            d == self.trail_lim@.len(),
            d > 0,
            forall|kk: int|
                0 <= kk < self.clauses@[cc].lits@.len() && self.level@[var_of(self.clauses@[cc].lits@[kk] as int)] > 0
                    ==> #[trigger] self.seen@[var_of(self.clauses@[cc].lits@[kk] as int)],
            counter == count_top(self.seen@, self.level@, self.trail@, d, self.trail@.len() as int),
        ensures
            counter >= 1,
    {
        let k = choose|k: int|
            0 <= k < self.clauses@[cc].lits@.len() && #[trigger] self.level@[var_of(
                self.clauses@[cc].lits@[k] as int,
            )] == self.trail_lim@.len();
        let l = self.clauses@[cc].lits@[k] as int;
        assert(self.inv_clauses());
        assert(clause_wf(self.clauses@[cc].lits@, self.nv()));
        assert(self.is_false(l));
        self.lemma_false_on_trail(l);
        let q = choose|q: int| 0 <= q < self.trail@.len() && self.trail@[q] as int == neg_of(l);
        assert(var_of(self.trail@[q] as int) == var_of(l));
        assert(self.seen@[var_of(l)]);
        lemma_count_pos(self.seen@, self.level@, self.trail@, d, q, self.trail@.len() as int);
    }

    /// The marked position met by the walk is at the current level.
    proof fn lemma_found_top(&self, q: int, d: int, counter: int)
        requires
            self.inv_sizes(),
            self.inv_trail(),
            d == self.trail_lim@.len(),
            d > 0,
            0 <= q < self.trail@.len(),
            self.seen@[var_of(self.trail@[q] as int)],
            counter >= 1,
            counter == count_top(self.seen@, self.level@, self.trail@, d, q + 1),
        ensures
            self.level@[var_of(self.trail@[q] as int)] == d,
            count_top(self.seen@, self.level@, self.trail@, d, q) == counter - 1,
            self.trail@[q] < 2 * self.nv(),
    {
        let t = self.trail@;
        let tl = self.trail_lim@;
        let l = self.level@[var_of(t[q] as int)] as int;
        assert(self.at_level(q, l));
        if l != d {
            assert forall|r: int| 0 <= r < q + 1 implies #[trigger] self.level@[var_of(t[r] as int)] != d by {
                let lr = self.level@[var_of(t[r] as int)] as int;
                assert(self.at_level(r, lr));
                assert(tl[l] <= tl[d - 1]) by {
                    if l < d - 1 {
                        assert(tl[l] < tl[d - 1]);
                    }
                }
            }
            lemma_count_none(self.seen@, self.level@, t, d, q + 1);
        }
    }

    /// A current-level position with marked positions still below it was
    /// implied, not decided.
    proof fn lemma_has_reason(&self, q: int, d: int, counter: int)
        requires
            self.inv_sizes(),
            self.inv_trail(),
            d == self.trail_lim@.len(),
            d > 0,
            0 <= q < self.trail@.len(),
            self.level@[var_of(self.trail@[q] as int)] == d,
            counter >= 1,
            counter == count_top(self.seen@, self.level@, self.trail@, d, q),
        ensures
            self.reason@[var_of(self.trail@[q] as int)] != REASON_UNDEF,
            self.live(self.reason@[var_of(self.trail@[q] as int)] as int),
    {
        let t = self.trail@;
        let tl = self.trail_lim@;
        assert(self.reason_ok(q));
        if self.reason@[var_of(t[q] as int)] == REASON_UNDEF {
            assert(q == tl[d - 1]);
            assert forall|r: int| 0 <= r < q implies #[trigger] self.level@[var_of(t[r] as int)] != d by {
                let lr = self.level@[var_of(t[r] as int)] as int;
                assert(self.at_level(r, lr));
            }
            lemma_count_none(self.seen@, self.level@, t, d, q);
        }
    }
}

impl Solver {
    /// Moves a literal of the highest level among `learnt[1..]` to position 1
    /// and returns that level (0 for a unit clause).
    fn backjump_level(&self, learnt: &mut Vec<Lit>) -> (btlevel: u32)
        requires
            old(learnt)@.len() >= 1,
            self.level@.len() == self.nv(),
            forall|k: int| 0 <= k < old(learnt)@.len() ==> (#[trigger] old(learnt)@[k]) < 2 * self.nv(),
        ensures
            old(learnt)@.len() == 1 ==> btlevel == 0 && final(learnt)@ == old(learnt)@,
            old(learnt)@.len() >= 2 ==> {
                &&& btlevel == self.level@[var_of(final(learnt)@[1] as int)]
                &&& exists|mi: int|
                    1 <= mi < old(learnt)@.len() && final(learnt)@ == old(learnt)@.update(1, old(learnt)@[mi]).update(
                        mi,
                        old(learnt)@[1],
                    )
                &&& forall|k: int|
                    1 <= k < old(learnt)@.len() ==> #[trigger] self.level@[var_of(old(learnt)@[k] as int)] <= btlevel
            },
    {
        if learnt.len() == 1 {
            return 0;
        }
        let ghost orig = learnt@;
        let mut max_i: usize = 1;
        let mut i: usize = 2;
        while i < learnt.len()
            invariant
                learnt@ == orig,
                1 <= max_i < i <= learnt@.len(),
                learnt@.len() >= 2,
                self.level@.len() == self.nv(),
                forall|k: int| 0 <= k < learnt@.len() ==> (#[trigger] learnt@[k]) < 2 * self.nv(),
                forall|k: int|
                    1 <= k < i ==> #[trigger] self.level@[var_of(learnt@[k] as int)] <= self.level@[var_of(
                        learnt@[max_i as int] as int,
                    )],
            decreases learnt@.len() - i,
        {
            if self.level[lit_var(learnt[i]) as usize] > self.level[lit_var(learnt[max_i]) as usize] {
                max_i = i;
            }
            i = i + 1;
        }
        let a = learnt[1];
        let b = learnt[max_i];
        learnt.set(1, b);
        learnt.set(max_i, a);
        proof {
            assert(learnt@ == orig.update(1, orig[max_i as int]).update(max_i as int, orig[1]));
            assert(learnt@[1] == orig[max_i as int] || max_i == 1);
        }
        self.level[lit_var(learnt[1]) as usize]
    }

    proof fn lemma_minimized(&self, gathered: Seq<Lit>, minimized: Seq<Lit>, p: Lit, d: int)
        requires
            self.inv_sizes(),
            self.gathered_ok(gathered, d),
            minimized == seq![lit_neg_spec(p)] + gathered.subrange(1, gathered.len() as int).filter(
                |l: Lit| self.keeps(l),
            ),
            (p as int) < 2 * self.nv(),
            self.is_true(p as int),
            self.level@[var_of(p as int)] == d,
            self.seen@[var_of(p as int)],
        ensures
            minimized.len() >= 1,
            minimized[0] as int == neg_of(p as int),
            forall|k: int|
                0 <= k < minimized.len() ==> (#[trigger] minimized[k]) < 2 * self.nv() && self.is_false(
                    minimized[k] as int,
                ) && self.seen@[var_of(minimized[k] as int)],
            forall|k: int| 1 <= k < minimized.len() ==> 0 < #[trigger] self.level@[var_of(minimized[k] as int)] < d,
            distinct_vars(minimized),
    {
        let f = |l: Lit| self.keeps(l);
        let g = gathered.subrange(1, gathered.len() as int);
        let fg = g.filter(f);
        lemma_filter_distinct(g, f);
        lemma_value_of_neg(self.assigns@, p as int);
        assert forall|k: int| 1 <= k < minimized.len() implies (#[trigger] minimized[k]) < 2 * self.nv()
            && self.is_false(minimized[k] as int) && self.seen@[var_of(minimized[k] as int)] && 0 < self.level@[var_of(
            minimized[k] as int,
        )] < d by {
            assert(minimized[k] == fg[k - 1]);
            assert(fg.contains(fg[k - 1]));
            assert(g.contains(fg[k - 1]));
            let i = choose|i: int| 0 <= i < g.len() && g[i] == fg[k - 1];
            assert(g[i] == gathered[i + 1]);
        }
        assert forall|a: int, b: int|
            0 <= a < minimized.len() && 0 <= b < minimized.len() && a != b implies var_of(minimized[a] as int)
            != var_of(minimized[b] as int) by {
            if a == 0 || b == 0 {
                let o = if a == 0 { b } else { a };
                assert(0 < self.level@[var_of(minimized[o] as int)] < d);
                assert(var_of(minimized[0] as int) == var_of(p as int));
            } else {
                assert(minimized[a] == fg[a - 1]);
                assert(minimized[b] == fg[b - 1]);
            }
        }
    }

    proof fn lemma_learnt_ok(&self, minimized: Seq<Lit>, learnt: Seq<Lit>, btlevel: u32, d: int)
        requires
            minimized.len() >= 1,
            d > 0,
            d == self.trail_lim@.len(),
            forall|k: int|
                0 <= k < minimized.len() ==> (#[trigger] minimized[k]) < 2 * self.nv() && self.is_false(
                    minimized[k] as int,
                ),
            self.level@[var_of(minimized[0] as int)] == d,
            forall|k: int| 1 <= k < minimized.len() ==> 0 < #[trigger] self.level@[var_of(minimized[k] as int)] < d,
            distinct_vars(minimized),
            minimized.len() == 1 ==> btlevel == 0 && learnt == minimized,
            minimized.len() >= 2 ==> {
                &&& btlevel == self.level@[var_of(learnt[1] as int)]
                &&& exists|mi: int|
                    1 <= mi < minimized.len() && learnt == minimized.update(1, minimized[mi]).update(
                        mi,
                        minimized[1],
                    )
                &&& forall|k: int|
                    1 <= k < minimized.len() ==> #[trigger] self.level@[var_of(minimized[k] as int)] <= btlevel
            },
        ensures
            self.analysis_ok(learnt, btlevel),
            learnt.len() == minimized.len(),
            forall|k: int| 0 <= k < learnt.len() ==> #[trigger] minimized.contains(learnt[k]),
            forall|k: int| 0 <= k < minimized.len() ==> #[trigger] learnt.contains(minimized[k]),
    {
        if minimized.len() >= 2 {
            let mi = choose|mi: int|
                1 <= mi < minimized.len() && learnt == minimized.update(1, minimized[mi]).update(
                    mi,
                    minimized[1],
                );
            let orig_index = |k: int| if k == 1 { mi } else if k == mi { 1 } else { k };
            assert forall|k: int| 0 <= k < learnt.len() implies learnt[k] == minimized[orig_index(k)] by {}
            assert forall|k: int| 0 <= k < learnt.len() implies #[trigger] minimized.contains(learnt[k]) by {
                assert(learnt[k] == minimized[orig_index(k)]);
            }
            assert forall|k: int| 0 <= k < minimized.len() implies #[trigger] learnt.contains(minimized[k]) by {
                assert(learnt[orig_index(k)] == minimized[k]);
            }
            assert forall|a: int, b: int|
                0 <= a < learnt.len() && 0 <= b < learnt.len() && a != b implies var_of(learnt[a] as int) != var_of(
                learnt[b] as int,
            ) by {
                assert(learnt[a] == minimized[orig_index(a)]);
                assert(learnt[b] == minimized[orig_index(b)]);
            }
            assert forall|k: int| 1 <= k < learnt.len() implies 0 < #[trigger] self.level@[var_of(learnt[k] as int)]
                <= btlevel by {
                assert(learnt[k] == minimized[orig_index(k)]);
            }
            assert forall|k: int| 0 <= k < learnt.len() implies (#[trigger] learnt[k]) < 2 * self.nv()
                && self.is_false(learnt[k] as int) by {
                assert(learnt[k] == minimized[orig_index(k)]);
            }
            assert(0 < self.level@[var_of(minimized[1] as int)]);
        } else {
            assert forall|k: int| 0 <= k < learnt.len() implies #[trigger] minimized.contains(learnt[k]) by {
                assert(minimized[k] == learnt[k]);
            }
            assert forall|k: int| 0 <= k < minimized.len() implies #[trigger] learnt.contains(minimized[k]) by {
                assert(minimized[k] == learnt[k]);
            }
        }
    }

    /// Clearing the marks after analysis restores the invariant.
    proof fn lemma_inv_back(&self, pre: Solver)
        requires
            pre.inv(),
            self.same_but_scratch(pre),
            self.seen@.len() == self.nv(),
            forall|v: int| 0 <= v < self.nv() ==> !#[trigger] self.seen@[v],
        ensures
            self.inv(),
    {
        self.lemma_trail_frame(pre, true);
        self.lemma_watches_ok_frame(pre, self.wview());
        assert(self.wview() == pre.wview());
    }
}

/// The complement of a literal, as computed by `lit_neg`.
pub open spec fn lit_neg_spec(l: Lit) -> Lit {
    neg_of(l as int) as Lit
}

impl Solver {
    /// Changing only the analysis marks keeps the trail invariant, the
    /// falsification facts and conflicting clauses.
    proof fn lemma_scratch_frame(&self, s0: Solver)
        requires
            s0.inv_trail(),
            self.same_but_scratch(s0),
        ensures
            self.inv_trail(),
            forall|l: int, i: int| #[trigger] self.falsified_before(l, i) == s0.falsified_before(l, i),
            forall|c: int| #[trigger] self.conflicting(c) == s0.conflicting(c),
            forall|c: int| #[trigger] self.has_lit_at_top_level(c) == s0.has_lit_at_top_level(c),
    {
        self.lemma_trail_frame(s0, true);
        assert forall|c: int| #[trigger] self.conflicting(c) == s0.conflicting(c) by {
            if s0.conflicting(c) {
                assert forall|k: int| 0 <= k < self.clauses@[c].lits@.len() implies #[trigger] self.is_false(
                    self.clauses@[c].lits@[k] as int,
                ) by {
                    assert(s0.is_false(s0.clauses@[c].lits@[k] as int));
                }
            }
            if self.conflicting(c) {
                assert forall|k: int| 0 <= k < s0.clauses@[c].lits@.len() implies #[trigger] s0.is_false(
                    s0.clauses@[c].lits@[k] as int,
                ) by {
                    assert(self.is_false(self.clauses@[c].lits@[k] as int));
                }
            }
        }
        assert forall|c: int| #[trigger] self.has_lit_at_top_level(c) == s0.has_lit_at_top_level(c) by {
            if s0.has_lit_at_top_level(c) {
                let k = choose|k: int|
                    0 <= k < s0.clauses@[c].lits@.len() && #[trigger] s0.level@[var_of(
                        s0.clauses@[c].lits@[k] as int,
                    )] == s0.trail_lim@.len();
                assert(self.level@[var_of(self.clauses@[c].lits@[k] as int)] == self.trail_lim@.len());
            }
            if self.has_lit_at_top_level(c) {
                let k = choose|k: int|
                    0 <= k < self.clauses@[c].lits@.len() && #[trigger] self.level@[var_of(
                        self.clauses@[c].lits@[k] as int,
                    )] == self.trail_lim@.len();
                assert(s0.level@[var_of(s0.clauses@[c].lits@[k] as int)] == s0.trail_lim@.len());
            }
        }
    }
}

impl Solver {
    /// The state during conflict analysis.
    spec fn analyzing(
        &self,
        pre: Solver,
        d: int,
        t: Seq<Lit>,
        learnt: Seq<Lit>,
        counter: int,
        trail_idx: int,
        p: Lit,
        cc: int,
    ) -> bool {
        &&& self.same_but_scratch(pre)
        &&& pre.inv()
        &&& self.inv_sizes()
        &&& self.inv_clauses()
        &&& self.inv_trail()
        &&& t == self.trail@
        &&& d == self.trail_lim@.len()
        &&& d > 0
        &&& 0 <= trail_idx <= t.len()
        &&& self.marks_ok(d)
        &&& self.gathered_ok(learnt, d)
        &&& counter == count_top(self.seen@, self.level@, t, d, trail_idx)
        &&& self.conflicting(cc)
        &&& self.has_lit_at_top_level(cc)
        &&& p == LIT_UNDEF ==> trail_idx == t.len()
        &&& p != LIT_UNDEF ==> {
            &&& (p as int) < 2 * self.nv()
            &&& self.seen@[var_of(p as int)]
            &&& self.level@[var_of(p as int)] == d
            &&& trail_idx < t.len()
            &&& t[trail_idx] == p
        }
    }

    /// Marks the variables of literals `start..` of clause `r` that are
    /// above level 0 and not yet marked: a current-level one adds to the
    /// count, a lower-level one joins the learnt clause.
    fn mark_clause_lits(
        &mut self,
        learnt: &mut Vec<Lit>,
        r: usize,
        start: usize,
        trail_idx: usize,
        counter: usize,
        cur_level: u32,
        Ghost(pre): Ghost<Solver>,
        Ghost(cc): Ghost<int>,
        Ghost(p): Ghost<Lit>,
    ) -> (new_counter: usize)
        requires
            old(self).analyzing(pre, cur_level as int, old(self).trail@, old(learnt)@, counter as int, trail_idx as int, p, cc),
            old(self).live(r as int),
            start <= 1,
            p == LIT_UNDEF ==> r == cc && start == 0,
            forall|kk: int|
                start <= kk < old(self).clauses@[r as int].lits@.len() ==> #[trigger] old(self).falsified_before(
                    old(self).clauses@[r as int].lits@[kk] as int,
                    trail_idx as int,
                ),
            old(self).gathers_all(old(learnt)@, cur_level as int),
        ensures
            final(self).refuted == old(self).refuted,
            final(self).gathers_all(final(learnt)@, cur_level as int),
            forall|v: int| 0 <= v < final(self).nv() && #[trigger] old(self).seen@[v] ==> final(self).seen@[v],
            forall|i: int|
                trail_idx <= i < old(self).trail@.len() ==> final(self).seen@[var_of(#[trigger] old(self).trail@[i] as int)]
                    == old(self).seen@[var_of(old(self).trail@[i] as int)],
            final(self).analyzing(pre, cur_level as int, old(self).trail@, final(learnt)@, new_counter as int, trail_idx as int, p, cc),
            final(self).live(r as int),
            new_counter >= counter,
            forall|v: int|
                0 <= v < final(self).nv() && #[trigger] final(self).seen@[v] && !old(self).seen@[v] ==> exists|kk: int|
                    start <= kk < final(self).clauses@[r as int].lits@.len() && var_of(
                        final(self).clauses@[r as int].lits@[kk] as int,
                    ) == v,
            forall|kk: int|
                start <= kk < final(self).clauses@[r as int].lits@.len() && final(self).level@[var_of(
                    final(self).clauses@[r as int].lits@[kk] as int,
                )] > 0 ==> #[trigger] final(self).seen@[var_of(final(self).clauses@[r as int].lits@[kk] as int)],
    {
        let ghost t = self.trail@;
        let ghost d = cur_level as int;
        let ghost s_in = *self;
        let clen = self.clauses[r].lits.len();
        let old_counter = counter;
        let mut counter = counter;
        let mut k: usize = start;
        while k < clen
            invariant
                self.refuted == old(self).refuted,
                start <= k <= clen,
                clen == self.clauses@[r as int].lits@.len(),
                self.analyzing(pre, d, t, learnt@, counter as int, trail_idx as int, p, cc),
                self.live(r as int),
                cur_level == d,
                counter >= old_counter,
                forall|kk: int|
                    start <= kk < clen ==> #[trigger] self.falsified_before(
                        self.clauses@[r as int].lits@[kk] as int,
                        trail_idx as int,
                    ),
                forall|kk: int|
                    start <= kk < k && self.level@[var_of(self.clauses@[r as int].lits@[kk] as int)] > 0
                        ==> #[trigger] self.seen@[var_of(self.clauses@[r as int].lits@[kk] as int)],
                self.gathers_all(learnt@, d),
                s_in.seen@.len() == self.nv(),
                s_in.num_vars == self.num_vars,
                t == s_in.trail@,
                forall|v: int| 0 <= v < self.nv() && #[trigger] s_in.seen@[v] ==> self.seen@[v],
                forall|i: int|
                    trail_idx <= i < t.len() ==> self.seen@[var_of(#[trigger] t[i] as int)] == s_in.seen@[var_of(
                        t[i] as int,
                    )],
                forall|v: int|
                    0 <= v < self.nv() && #[trigger] self.seen@[v] && !s_in.seen@[v] ==> exists|kk: int|
                        start <= kk < k && var_of(self.clauses@[r as int].lits@[kk] as int) == v,
            decreases clen - k,
        {
            let lit = self.clauses[r].lits[k];
            let var = lit_var(lit);
            proof {
                assert(clause_wf(self.clauses@[r as int].lits@, self.nv()));
                assert(self.falsified_before(lit as int, trail_idx as int));
            }
            if !self.seen[var as usize] && self.level[var as usize] > 0 {
                let ghost s0 = *self;
                let ghost lb0 = learnt@;
                let ghost q0 = choose|q: int| 0 <= q < trail_idx && t[q] as int == neg_of(lit as int);
                self.seen.set(var as usize, true);
                proof {
                    self.lemma_mark(s0, lit as int, q0, trail_idx as int, d, learnt@);
                    lemma_count_bounds(self.seen@, self.level@, t, d, trail_idx as int);
                }
                if self.level[var as usize] >= cur_level {
                    counter = counter + 1;
                } else {
                    let ghost lb = learnt@;
                    learnt.push(lit);
                    proof {
                        self.lemma_gather(s0, lb, lit, d);
                    }
                }
                let ghost tc = self.analyze_toclear@;
                self.analyze_toclear.push(var);
                proof {
                    self.lemma_marks_push(s0, tc, var as int, d);
                    self.lemma_scratch_frame(s0);
                    if p != LIT_UNDEF {
                        assert(s0.seen@[var_of(p as int)]);
                    }
                    assert forall|kk: int|
                        start <= kk < k + 1 && self.level@[var_of(self.clauses@[r as int].lits@[kk] as int)] > 0
                            implies #[trigger] self.seen@[var_of(self.clauses@[r as int].lits@[kk] as int)] by {
                        if kk < k {
                            assert(s0.seen@[var_of(self.clauses@[r as int].lits@[kk] as int)]);
                        }
                    }
                    assert(var_of(t[q0] as int) == var as int);
                    assert forall|w: int|
                        0 <= w < self.nv() && #[trigger] self.seen@[w] && self.level@[w] < d implies exists|k2: int|
                            1 <= k2 < learnt@.len() && var_of(#[trigger] learnt@[k2] as int) == w by {
                        if w == var as int {
                            assert(learnt@ == lb0.push(lit));
                            assert(var_of(learnt@[lb0.len() as int] as int) == w);
                        } else {
                            assert(s0.seen@[w]);
                            let k2 = choose|k2: int| 1 <= k2 < lb0.len() && var_of(#[trigger] lb0[k2] as int) == w;
                            assert(learnt@[k2] == lb0[k2]);
                        }
                    }
                    assert forall|v: int| 0 <= v < self.nv() && #[trigger] s_in.seen@[v] implies self.seen@[v] by {
                        assert(s0.seen@[v]);
                    }
                    assert forall|v: int| 0 <= v < self.nv() && #[trigger] self.seen@[v] && !s_in.seen@[v] implies exists|kk: int|
                        start <= kk < k + 1 && var_of(self.clauses@[r as int].lits@[kk] as int) == v by {
                        if v != var as int {
                            assert(s0.seen@[v]);
                            let kk = choose|kk: int| start <= kk < k && var_of(s0.clauses@[r as int].lits@[kk] as int) == v;
                            assert(self.clauses@[r as int].lits@[kk] == s0.clauses@[r as int].lits@[kk]);
                        } else {
                            assert(var_of(self.clauses@[r as int].lits@[k as int] as int) == v);
                        }
                    }
                    assert forall|i: int| trail_idx <= i < t.len() implies self.seen@[var_of(#[trigger] t[i] as int)]
                        == s_in.seen@[var_of(t[i] as int)] by {
                        assert(i != q0);
                        assert(var_of(t[i] as int) != var_of(t[q0] as int));
                        assert(t[i] < 2 * self.nv());
                    }
                }
            }
            k = k + 1;
        }
        counter
    }

    /// Walks the trail down from `trail_idx` to the nearest marked position.
    fn walk_back(&self, trail_idx: usize, counter: usize, Ghost(d): Ghost<int>) -> (q: usize)
        requires
            trail_idx <= self.trail@.len(),
            self.inv_sizes(),
            self.inv_trail(),
            self.seen@.len() == self.nv(),
            counter >= 1,
            counter == count_top(self.seen@, self.level@, self.trail@, d, trail_idx as int),
        ensures
            q < trail_idx,
            self.seen@[var_of(self.trail@[q as int] as int)],
            counter == count_top(self.seen@, self.level@, self.trail@, d, q + 1),
    {
        let mut i = trail_idx;
        loop
            invariant
                i <= trail_idx,
                trail_idx <= self.trail@.len(),
                self.inv_sizes(),
                self.inv_trail(),
                self.seen@.len() == self.nv(),
                counter >= 1,
                counter == count_top(self.seen@, self.level@, self.trail@, d, i as int),
            decreases i,
        {
            proof {
                lemma_count_bounds(self.seen@, self.level@, self.trail@, d, i as int);
            }
            i = i - 1;
            let tl = self.trail[i];
            proof {
                assert(tl < 2 * self.nv());
            }
            if self.seen[lit_var(tl) as usize] {
                return i;
            }
        }
    }
}

/// With equal counts at `a` and `b`, no marked position of level `d` lies
/// in between.
pub proof fn lemma_count_gap(seen: Seq<bool>, level: Seq<u32>, t: Seq<Lit>, d: int, a: int, b: int)
    requires
        0 <= a <= b,
        count_top(seen, level, t, d, a) == count_top(seen, level, t, d, b),
    ensures
        forall|i: int| a <= i < b ==> !(seen[var_of(#[trigger] t[i] as int)] && level[var_of(t[i] as int)] == d),
    decreases b - a,
{
    if a < b {
        lemma_count_bounds(seen, level, t, d, b - 1);
        lemma_count_mono(seen, level, t, d, a, b - 1);
        lemma_count_gap(seen, level, t, d, a, b - 1);
    }
}

/// Counts do not decrease along the trail.
pub proof fn lemma_count_mono(seen: Seq<bool>, level: Seq<u32>, t: Seq<Lit>, d: int, a: int, b: int)
    requires
        0 <= a <= b,
    ensures
        count_top(seen, level, t, d, a) <= count_top(seen, level, t, d, b),
    decreases b - a,
{
    if a < b {
        lemma_count_mono(seen, level, t, d, a, b - 1);
    }
}

impl Solver {
    /// Two false literals over the same variable are the same literal.
    proof fn lemma_false_same_var(&self, a: int, b: int)
        requires
            self.inv_sizes(),
            0 <= a < 2 * self.nv(),
            0 <= b < 2 * self.nv(),
            var_of(a) == var_of(b),
            self.is_false(a),
            self.is_false(b),
        ensures
            a == b,
    {
        let v = self.assigns@[var_of(a)];
        assert(v <= 2);
        assert((0u8 ^ 1u8) == 1u8) by (bit_vector);
        assert((1u8 ^ 1u8) == 0u8) by (bit_vector);
        assert((2u8 ^ 1u8) == 3u8) by (bit_vector);
        if is_pos(a) != is_pos(b) {
            assert(false);
        }
    }
}

impl Solver {
    /// The variable of trail position `i` is marked or fixed at level 0.
    spec fn covered(&self, i: int) -> bool {
        let v = var_of(self.trail@[i] as int);
        self.seen@[v] || self.level@[v] == 0
    }

    /// Every literal of clause `r` from position `start` on is over a marked
    /// variable or one fixed at level 0.
    spec fn closed_from(&self, r: int, start: int) -> bool {
        forall|k: int|
            #![trigger self.clauses@[r].lits@[k]]
            start <= k < self.clauses@[r].lits@.len() ==> self.seen@[var_of(self.clauses@[r].lits@[k] as int)]
                || self.level@[var_of(self.clauses@[r].lits@[k] as int)] == 0
    }

    /// Every marked trail position of level `d` above `ti` was resolved: it
    /// has a reason whose other literals are all covered.
    spec fn resolved_above(&self, ti: int, d: int) -> bool {
        forall|i: int|
            ti < i < self.trail@.len() && #[trigger] self.seen@[var_of(self.trail@[i] as int)] && self.level@[var_of(
                self.trail@[i] as int,
            )] == d ==> self.reason@[var_of(self.trail@[i] as int)] != REASON_UNDEF && self.closed_from(
                self.reason@[var_of(self.trail@[i] as int)] as int,
                1,
            )
    }

    /// Every marked variable below level `d` has its literal among the
    /// gathered ones.
    spec fn gathers_all(&self, learnt: Seq<Lit>, d: int) -> bool {
        forall|v: int|
            0 <= v < self.nv() && #[trigger] self.seen@[v] && self.level@[v] < d ==> exists|k: int|
                1 <= k < learnt.len() && var_of(#[trigger] learnt[k] as int) == v
    }

    /// Growing the marks keeps a clause covered.
    proof fn lemma_closed_grow(&self, s0: Solver, r: int, start: int)
        requires
            s0.closed_from(r, start),
            0 <= start,
            s0.inv_clauses(),
            0 <= r < s0.clauses@.len(),
            self.clauses@ == s0.clauses@,
            self.level@ == s0.level@,
            self.num_vars == s0.num_vars,
            forall|v: int| 0 <= v < self.nv() && #[trigger] s0.seen@[v] ==> self.seen@[v],
        ensures
            self.closed_from(r, start),
    {
        assert forall|k: int| start <= k < self.clauses@[r].lits@.len() implies self.seen@[var_of(
            #[trigger] self.clauses@[r].lits@[k] as int,
        )] || self.level@[var_of(self.clauses@[r].lits@[k] as int)] == 0 by {
            let l = self.clauses@[r].lits@[k];
            assert(clause_wf(s0.clauses@[r].lits@, s0.nv()));
            assert(s0.clauses@[r].lits@[k] == l);
            assert(l < 2 * self.nv());
            assert(0 <= var_of(l as int) < self.nv());
            if s0.seen@[var_of(l as int)] {
                assert(self.seen@[var_of(l as int)]);
            }
        }
    }

    /// What holds of the state when conflict analysis has found the first
    /// unique implication point `q` and minimized the clause.
    spec fn learnt_context(&self, cc: int, q: int, d: int, gathered: Seq<Lit>, minimized: Seq<Lit>) -> bool {
        let t = self.trail@;
        &&& self.inv_sizes()
        &&& self.inv_clauses()
        &&& self.inv_trail()
        &&& self.inv_sound()
        &&& d == self.trail_lim@.len()
        &&& self.marks_ok(d)
        &&& 0 <= q < t.len()
        &&& self.seen@[var_of(t[q] as int)]
        &&& self.level@[var_of(t[q] as int)] == d
        &&& minimized.len() >= 1
        &&& minimized[0] as int == neg_of(t[q] as int)
        &&& forall|i: int|
            0 <= i < q ==> !(#[trigger] self.seen@[var_of(t[i] as int)] && self.level@[var_of(t[i] as int)] == d)
        &&& self.resolved_above(q, d)
        &&& self.gathers_all(gathered, d)
        &&& self.gathered_ok(gathered, d)
        &&& minimized == seq![minimized[0]] + gathered.subrange(1, gathered.len() as int).filter(
            |l: Lit| self.keeps(l),
        )
        &&& self.conflicting(cc)
        &&& self.closed_from(cc, 0)
    }

    /// In a model of the formula that agrees with the covered trail literals
    /// before position `i`, the implied literal at `i` holds when its reason
    /// is covered.
    proof fn lemma_forced(&self, m: Seq<bool>, i: int)
        requires
            self.inv_sizes(),
            self.inv_clauses(),
            self.inv_trail(),
            self.holds_db(m),
            0 <= i < self.trail@.len(),
            self.reason@[var_of(self.trail@[i] as int)] != REASON_UNDEF,
            self.closed_from(self.reason@[var_of(self.trail@[i] as int)] as int, 1),
            forall|j: int| 0 <= j < i && #[trigger] self.covered(j) ==> lit_holds(m, self.trail@[j]),
        ensures
            lit_holds(m, self.trail@[i]),
    {
        let r = self.reason@[var_of(self.trail@[i] as int)] as int;
        assert(self.reason_ok(i));
        let c = self.clauses@[r].lits@;
        assert(self.live(r));
        assert(clause_holds(m, c));
        let k = choose|k: int| 0 <= k < c.len() && #[trigger] lit_holds(m, c[k]);
        if k > 0 {
            assert(self.falsified_before(c[k] as int, i));
            let j = choose|j: int| 0 <= j < i && self.trail@[j] as int == neg_of(c[k] as int);
            assert(clause_wf(c, self.nv()));
            assert(var_of(self.trail@[j] as int) == var_of(c[k] as int));
            assert(self.covered(j));
            assert(lit_holds(m, self.trail@[j]));
            lemma_holds_neg(m, c[k]);
            assert(self.trail@[j] == neg_of(c[k] as int) as Lit);
        }
    }

    /// A model of the formula that falsifies the minimized clause agrees
    /// with every covered trail literal below `n`.
    proof fn lemma_agree(
        &self,
        m: Seq<bool>,
        n: int,
        cc: int,
        q: int,
        d: int,
        gathered: Seq<Lit>,
        minimized: Seq<Lit>,
    )
        requires
            self.learnt_context(cc, q, d, gathered, minimized),
            self.holds_db(m),
            forall|k: int| 0 <= k < minimized.len() ==> !lit_holds(m, #[trigger] minimized[k]),
            0 <= n <= self.trail@.len(),
        ensures
            forall|i: int| 0 <= i < n && #[trigger] self.covered(i) ==> lit_holds(m, self.trail@[i]),
        decreases n,
    {
        if n > 0 {
            self.lemma_agree(m, n - 1, cc, q, d, gathered, minimized);
            let i = n - 1;
            let t = self.trail@;
            if self.covered(i) {
                let x = t[i];
                let v = var_of(x as int);
                assert(x < 2 * self.nv());
                if self.level@[v] == 0 {
                    assert(lit_holds(m, t[i]));
                } else if self.level@[v] == d {
                    if i == q {
                        assert(!lit_holds(m, minimized[0]));
                        lemma_holds_neg(m, x);
                        assert(minimized[0] == neg_of(x as int) as Lit);
                    } else if i < q {
                        assert(self.seen@[var_of(t[i] as int)]);
                        assert(false);
                    } else {
                        assert(self.seen@[var_of(t[i] as int)]);
                        self.lemma_forced(m, i);
                    }
                } else {
                    assert(self.seen@[v]);
                    assert(self.level@[v] < d);
                    let k = choose|k: int| 1 <= k < gathered.len() && var_of(#[trigger] gathered[k] as int) == v;
                    let g = gathered[k];
                    assert(self.is_true(x as int));
                    lemma_value_of_neg(self.assigns@, x as int);
                    self.lemma_false_same_var(g as int, neg_of(x as int));
                    assert(g == neg_of(x as int) as Lit);
                    let f = |l: Lit| self.keeps(l);
                    let gs = gathered.subrange(1, gathered.len() as int);
                    if self.keeps(g) {
                        assert(gs[k - 1] == g);
                        gs.lemma_filter_contains(f, k - 1);
                        assert(gs.filter(f).contains(g));
                        let k2 = choose|k2: int| 0 <= k2 < gs.filter(f).len() && gs.filter(f)[k2] == g;
                        assert(minimized[k2 + 1] == g);
                        assert(!lit_holds(m, minimized[k2 + 1]));
                        lemma_holds_neg(m, x);
                    } else {
                        assert(self.closed_from(self.reason@[v] as int, 1));
                        self.lemma_forced(m, i);
                    }
                }
            }
        }
    }

    /// The clause produced by conflict analysis follows from the formula:
    /// a model falsifying it would agree with every covered trail literal
    /// and so falsify the conflicting clause.
    proof fn lemma_learnt_implied(&self, cc: int, q: int, d: int, gathered: Seq<Lit>, minimized: Seq<Lit>)
        requires
            self.learnt_context(cc, q, d, gathered, minimized),
        ensures
            self.db_implies(minimized),
            implies_clause(self.formula@, self.nv(), minimized),
    {
        let t = self.trail@;
        assert forall|m: Seq<bool>| #[trigger] self.holds_db(m) implies clause_holds(m, minimized) by {
            if !clause_holds(m, minimized) {
                assert forall|k: int| 0 <= k < minimized.len() implies !lit_holds(m, #[trigger] minimized[k]) by {}
                self.lemma_agree(m, t.len() as int, cc, q, d, gathered, minimized);
                let c = self.clauses@[cc].lits@;
                assert(self.live(cc));
                assert(clause_holds(m, c));
                let k = choose|k: int| 0 <= k < c.len() && #[trigger] lit_holds(m, c[k]);
                assert(clause_wf(c, self.nv()));
                assert(self.is_false(c[k] as int));
                self.lemma_false_on_trail(c[k] as int);
                let j = choose|j: int| 0 <= j < t.len() && t[j] as int == neg_of(c[k] as int);
                assert(var_of(t[j] as int) == var_of(c[k] as int));
                assert(self.covered(j));
                lemma_holds_neg(m, c[k]);
                assert(t[j] == neg_of(c[k] as int) as Lit);
            }
        }
        assert forall|m: Seq<bool>| #[trigger] is_model(m, self.formula@, self.nv()) implies clause_holds(
            m,
            minimized,
        ) by {
            self.lemma_model_holds_db(m);
        }
    }

    /// A model of the input clauses satisfies the stored clauses and the
    /// level-0 facts.
    proof fn lemma_model_holds_db(&self, m: Seq<bool>)
        requires
            self.inv_sound(),
            is_model(m, self.formula@, self.nv()),
        ensures
            self.holds_db(m),
    {
        assert forall|c: int| #[trigger] self.live(c) implies clause_holds(m, self.clauses@[c].lits@) by {
            assert(implies_clause(self.formula@, self.nv(), self.clauses@[c].lits@));
        }
        assert forall|i: int|
            0 <= i < self.trail@.len() && self.level@[var_of(self.trail@[i] as int)] == 0 implies lit_holds(
            m,
            #[trigger] self.trail@[i],
        ) by {
            assert(implies_clause(self.formula@, self.nv(), seq![self.trail@[i]]));
            assert(clause_holds(m, seq![self.trail@[i]]));
            assert(seq![self.trail@[i]][0] == self.trail@[i]);
        }
    }
}

impl Solver {
    /// The total assignment `m` satisfies every stored clause and every
    /// literal assigned at level 0.
    pub closed spec fn holds_db(&self, m: Seq<bool>) -> bool {
        &&& forall|c: int| #[trigger] self.live(c) ==> clause_holds(m, self.clauses@[c].lits@)
        &&& forall|i: int|
            0 <= i < self.trail@.len() && self.level@[var_of(self.trail@[i] as int)] == 0 ==> lit_holds(
                m,
                #[trigger] self.trail@[i],
            )
    }

    /// Clause `c` follows from the stored clauses and the level-0 facts.
    pub open spec fn db_implies(&self, c: Seq<Lit>) -> bool {
        forall|m: Seq<bool>| #[trigger] self.holds_db(m) ==> clause_holds(m, c)
    }

    /// What `holds_db` means over the public views.
    pub proof fn lemma_holds_db_views(&self, m: Seq<bool>)
        ensures
            self.holds_db(m) <==> (forall|c: int| #[trigger] self.live(c) ==> clause_holds(m, self.clause_lits(c)))
                && (forall|i: int|
                0 <= i < self.trail_view().len() && self.level_of(var_of(self.trail_view()[i] as int)) == 0
                    ==> lit_holds(m, #[trigger] self.trail_view()[i])),
    {
        assert(self.trail_view() == self.trail@);
        if forall|i: int|
            0 <= i < self.trail_view().len() && self.level_of(var_of(self.trail_view()[i] as int)) == 0
                ==> lit_holds(m, #[trigger] self.trail_view()[i]) {
            assert forall|i: int|
                0 <= i < self.trail@.len() && self.level@[var_of(self.trail@[i] as int)] == 0 implies lit_holds(
                m,
                #[trigger] self.trail@[i],
            ) by {
                assert(self.level_of(var_of(self.trail_view()[i] as int)) == 0);
            }
        }
    }
}

impl Solver {
    /// One round of conflict analysis (marking the literals of clause `rc`
    /// and walking back to the next marked position `q`) keeps the
    /// conflicting clause covered and every marked current-level position
    /// above `q` resolved.
    proof fn lemma_analysis_step(
        &self,
        s_b: Solver,
        cc: int,
        rc: int,
        p_old: Lit,
        ti_old: int,
        q: int,
        c_mark: int,
        d: int,
    )
        requires
            s_b.inv_clauses(),
            s_b.inv_sizes(),
            s_b.inv_trail(),
            self.same_but_scratch(s_b),
            self.seen@.len() == self.nv(),
            d == self.trail_lim@.len(),
            0 <= q < ti_old <= self.trail@.len(),
            s_b.live(rc),
            s_b.conflicting(cc),
            p_old == LIT_UNDEF ==> ti_old == self.trail@.len() && rc == cc,
            p_old != LIT_UNDEF ==> {
                &&& ti_old < self.trail@.len()
                &&& self.trail@[ti_old] == p_old
                &&& s_b.reason@[var_of(p_old as int)] != REASON_UNDEF
                &&& rc == s_b.reason@[var_of(p_old as int)] as int
                &&& s_b.closed_from(cc, 0)
            },
            s_b.resolved_above(ti_old, d),
            forall|kk: int|
                (if p_old == LIT_UNDEF { 0int } else { 1int }) <= kk < self.clauses@[rc].lits@.len() && self.level@[var_of(
                    self.clauses@[rc].lits@[kk] as int,
                )] > 0 ==> #[trigger] self.seen@[var_of(self.clauses@[rc].lits@[kk] as int)],
            forall|v: int| 0 <= v < self.nv() && #[trigger] s_b.seen@[v] ==> self.seen@[v],
            forall|i: int|
                ti_old <= i < s_b.trail@.len() ==> self.seen@[var_of(#[trigger] s_b.trail@[i] as int)]
                    == s_b.seen@[var_of(s_b.trail@[i] as int)],
            c_mark == count_top(self.seen@, self.level@, self.trail@, d, ti_old),
            c_mark == count_top(self.seen@, self.level@, self.trail@, d, q + 1),
        ensures
            self.closed_from(cc, 0),
            self.resolved_above(q, d),
    {
        let t = self.trail@;
        assert(s_b.clauses@ == self.clauses@);
        if p_old == LIT_UNDEF {
            assert forall|k: int|
                #![trigger self.clauses@[cc].lits@[k]]
                0 <= k < self.clauses@[cc].lits@.len() implies self.seen@[var_of(self.clauses@[cc].lits@[k] as int)]
                || self.level@[var_of(self.clauses@[cc].lits@[k] as int)] == 0 by {
                if self.level@[var_of(self.clauses@[cc].lits@[k] as int)] > 0 {
                    assert(self.seen@[var_of(self.clauses@[cc].lits@[k] as int)]);
                }
            }
        } else {
            self.lemma_closed_grow(s_b, cc, 0);
        }
        lemma_count_gap(self.seen@, self.level@, t, d, q + 1, ti_old);
        assert forall|i: int|
            q < i < t.len() && #[trigger] self.seen@[var_of(t[i] as int)] && self.level@[var_of(t[i] as int)] == d
                implies self.reason@[var_of(t[i] as int)] != REASON_UNDEF && self.closed_from(
            self.reason@[var_of(t[i] as int)] as int,
            1,
        ) by {
            let v = var_of(t[i] as int);
            if i > ti_old {
                assert(s_b.seen@[var_of(s_b.trail@[i] as int)]);
                assert(s_b.reason_ok(i));
                self.lemma_closed_grow(s_b, self.reason@[v] as int, 1);
            } else if i == ti_old {
                assert forall|k: int|
                    #![trigger self.clauses@[rc].lits@[k]]
                    1 <= k < self.clauses@[rc].lits@.len() implies self.seen@[var_of(
                    self.clauses@[rc].lits@[k] as int,
                )] || self.level@[var_of(self.clauses@[rc].lits@[k] as int)] == 0 by {
                    if self.level@[var_of(self.clauses@[rc].lits@[k] as int)] > 0 {
                        assert(self.seen@[var_of(self.clauses@[rc].lits@[k] as int)]);
                    }
                }
            } else {
                assert(!(self.seen@[var_of(t[i] as int)] && self.level@[var_of(t[i] as int)] == d));
            }
        }
    }
}

// ---------------------------------------------------------------------------
// Adding and learning clauses
// ---------------------------------------------------------------------------

/// Every literal is over a variable below `nv`.
pub open spec fn in_range(lits: Seq<Lit>, nv: int) -> bool {
    forall|k: int| 0 <= k < lits.len() ==> (#[trigger] lits[k]) < 2 * nv
}

/// Whether `add_clause` can take `lits` as an input clause of a solver
/// over `num_vars` variables: a tautology, or every literal over a known
/// variable.
pub fn fits(num_vars: u32, lits: &Vec<Lit>) -> (r: bool)
    requires
        num_vars <= MAX_VARS,
    ensures
        r == (tautology(lits@) || in_range(lits@, num_vars as int)),
{
    let n = lits.len();
    let mut i: usize = 0;
    let mut ok = true;
    while i < n
        invariant
            n == lits@.len(),
            i <= n,
            num_vars <= MAX_VARS,
            ok == forall|k: int| 0 <= k < i ==> (#[trigger] lits@[k]) < 2 * num_vars,
        decreases n - i,
    {
        if lits[i] >= 2 * num_vars {
            ok = false;
        }
        i = i + 1;
    }
    if ok {
        return true;
    }
    let mut w = lits.clone();
    proof {
        assert(w@ == lits@);
    }
    sort_u32(&mut w);
    proof {
        crate::clause::lemma_multiset_same_set(w@, lits@);
    }
    dedup_sorted(&mut w);
    proof {
        lemma_tautology_adjacent(w@);
        lemma_taut_same_set(lits@, w@);
    }
    let m = w.len();
    let mut j: usize = 0;
    while m > 0 && j < m - 1
        invariant
            m == w@.len(),
            j <= m,
            forall|a: int| 0 <= a < j && a < m - 1 ==> #[trigger] w@[a] as int != neg_of(w@[a + 1] as int),
            tautology(lits@) <==> tautology(w@),
            tautology(w@) <==> exists|i: int| 0 <= i < w@.len() - 1 && #[trigger] w@[i] as int == neg_of(w@[i + 1] as int),
            !in_range(lits@, num_vars as int),
        decreases m - j,
    {
        if w[j] == lit_neg(w[j + 1]) {
            proof {
                assert(w@[j as int] as int == neg_of(w@[j + 1] as int));
                assert(tautology(w@));
            }
            return true;
        }
        j = j + 1;
    }
    false
}

/// The clause holds a literal and its complement.
pub open spec fn tautology(s: Seq<Lit>) -> bool {
    exists|a: int, b: int| 0 <= a < s.len() && 0 <= b < s.len() && s[b] as int == neg_of(s[a] as int)
}

/// In a strictly sorted sequence a literal and its complement are adjacent.
pub proof fn lemma_tautology_adjacent(w: Seq<Lit>)
    requires
        strictly_sorted(w),
    ensures
        tautology(w) <==> exists|i: int| 0 <= i < w.len() - 1 && #[trigger] w[i] as int == neg_of(w[i + 1] as int),
{
    if tautology(w) {
        let (a, b) = choose|a: int, b: int| 0 <= a < w.len() && 0 <= b < w.len() && w[b] as int == neg_of(w[a] as int);
        let (lo, hi) = if a < b { (a, b) } else { (b, a) };
        assert(lo != hi);
        assert(w[lo] < w[hi]);
        assert(w[hi] == w[lo] + 1);
        if hi > lo + 1 {
            assert(w[lo] < w[lo + 1] < w[hi]);
        }
        assert(w[lo] as int == neg_of(w[lo + 1] as int));
    }
}

impl Solver {
    /// The literals that are not false.
    pub closed spec fn nonfalse(&self) -> spec_fn(Lit) -> bool {
        |l: Lit| !self.is_false(l as int)
    }

    /// The number of distinct decision levels among the variables of `lits`.
    pub closed spec fn lbd_of(&self, lits: Seq<Lit>) -> nat {
        lits.map_values(|l: Lit| self.level@[var_of(l as int)]).to_set().len()
    }

    /// The decision levels at which the variables of `lits` are assigned.
    pub open spec fn levels_of(&self, lits: Seq<Lit>) -> Set<int> {
        Set::new(|x: int| exists|k: int| 0 <= k < lits.len() && #[trigger] self.level_of(var_of(lits[k] as int)) == x)
    }

    /// The LBD of the empty clause is 0.
    pub proof fn lemma_lbd_empty(&self)
        ensures
            self.lbd_of(Seq::<Lit>::empty()) == 0,
    {
        let f = |l: Lit| self.level@[var_of(l as int)];
        assert(Seq::<Lit>::empty().map_values(f) =~= Seq::<u32>::empty());
        assert(Seq::<u32>::empty().to_set() =~= Set::<u32>::empty());
    }

    /// A literal whose level some literal of `lits` already has adds no
    /// level; a literal at a new level adds one.
    pub proof fn lemma_lbd_push(&self, lits: Seq<Lit>, l: Lit)
        ensures
            (exists|k: int| 0 <= k < lits.len() && #[trigger] self.level_of(var_of(lits[k] as int)) == self.level_of(
                var_of(l as int),
            )) ==> self.lbd_of(lits.push(l)) == self.lbd_of(lits),
            !(exists|k: int| 0 <= k < lits.len() && #[trigger] self.level_of(var_of(lits[k] as int)) == self.level_of(
                var_of(l as int),
            )) ==> self.lbd_of(lits.push(l)) == self.lbd_of(lits) + 1,
    {
        let f = |x: Lit| self.level@[var_of(x as int)];
        let m = lits.map_values(f);
        let lv = self.level@[var_of(l as int)];
        assert(lits.push(l).map_values(f) =~= m.push(lv));
        m.lemma_push_to_set_commute(lv);
        vstd::seq_lib::seq_to_set_is_finite(m);
        if exists|k: int| 0 <= k < lits.len() && #[trigger] self.level_of(var_of(lits[k] as int)) == self.level_of(
            var_of(l as int),
        ) {
            let k = choose|k: int| 0 <= k < lits.len() && #[trigger] self.level_of(var_of(lits[k] as int)) == self.level_of(
                var_of(l as int),
            );
            assert(m[k] == lv);
            assert(m.to_set().contains(lv));
            assert(m.to_set().insert(lv) =~= m.to_set());
        } else {
            assert(!m.to_set().contains(lv)) by {
                if m.to_set().contains(lv) {
                    let k = choose|k: int| 0 <= k < m.len() && m[k] == lv;
                    assert(self.level_of(var_of(lits[k] as int)) == self.level_of(var_of(l as int)));
                }
            }
        }
    }

    /// The LBD is the number of distinct decision levels of the literals'
    /// variables.
    pub proof fn lemma_lbd_counts_levels(&self, lits: Seq<Lit>)
        ensures
            self.levels_of(lits).finite(),
            self.lbd_of(lits) == self.levels_of(lits).len(),
        decreases lits.len(),
    {
        if lits.len() == 0 {
            self.lemma_lbd_empty();
            assert(lits =~= Seq::<Lit>::empty());
            assert(self.levels_of(lits) =~= Set::<int>::empty());
            broadcast use vstd::set::axiom_set_empty_len;
        } else {
            let l0 = lits.drop_last();
            let l = lits.last();
            assert(l0.push(l) =~= lits);
            self.lemma_lbd_counts_levels(l0);
            self.lemma_lbd_push(l0, l);
            let x = self.level_of(var_of(l as int));
            assert(self.levels_of(lits) =~= self.levels_of(l0).insert(x)) by {
                assert forall|y: int| #[trigger] self.levels_of(lits).contains(y) implies self.levels_of(l0).insert(
                    y,
                ).contains(y) && (y == x || self.levels_of(l0).contains(y)) by {
                    let k = choose|k: int| 0 <= k < lits.len() && #[trigger] self.level_of(var_of(lits[k] as int)) == y;
                    if k < l0.len() {
                        assert(l0[k] == lits[k]);
                    }
                }
                assert forall|y: int| #[trigger] self.levels_of(l0).contains(y) implies self.levels_of(lits).contains(y) by {
                    let k = choose|k: int| 0 <= k < l0.len() && #[trigger] self.level_of(var_of(l0[k] as int)) == y;
                    assert(lits[k] == l0[k]);
                }
                assert(self.level_of(var_of(lits[lits.len() - 1] as int)) == x);
            }
            assert(self.lbd_of(lits) == self.lbd_of(l0.push(l)));
            if exists|k: int| 0 <= k < l0.len() && #[trigger] self.level_of(var_of(l0[k] as int)) == x {
                let k = choose|k: int| 0 <= k < l0.len() && #[trigger] self.level_of(var_of(l0[k] as int)) == x;
                assert(self.levels_of(l0).contains(x));
                assert(self.levels_of(l0).insert(x) =~= self.levels_of(l0));
                assert(self.lbd_of(l0.push(l)) == self.lbd_of(l0));
                assert(self.levels_of(lits) == self.levels_of(l0));
            } else {
                assert(!self.levels_of(l0).contains(x));
                vstd::set::axiom_set_insert_len(self.levels_of(l0), x);
                assert(self.lbd_of(l0.push(l)) == self.lbd_of(l0) + 1);
            }
        }
    }

    /// Counts the distinct decision levels of the literals' variables.
    fn compute_lbd(&self, lits: &Vec<Lit>) -> (r: u32)
        requires
            self.level@.len() == self.nv(),
            self.num_vars <= MAX_VARS,
            forall|k: int| 0 <= k < lits@.len() ==> (#[trigger] lits@[k]) < 2 * self.nv(),
            distinct_vars(lits@),
        ensures
            r == self.lbd_of(lits@),
            r == self.levels_of(lits@).len(),
    {
        let mut levels: Vec<u32> = Vec::new();
        let mut i: usize = 0;
        while i < lits.len()
            invariant
                i <= lits@.len(),
                self.level@.len() == self.nv(),
                forall|k: int| 0 <= k < lits@.len() ==> (#[trigger] lits@[k]) < 2 * self.nv(),
                levels@ == lits@.subrange(0, i as int).map_values(|l: Lit| self.level@[var_of(l as int)]),
            decreases lits@.len() - i,
        {
            levels.push(self.level[lit_var(lits[i]) as usize]);
            proof {
                assert(lits@.subrange(0, i + 1) =~= lits@.subrange(0, i as int).push(lits@[i as int]));
                assert(levels@ =~= lits@.subrange(0, i + 1).map_values(|l: Lit| self.level@[var_of(l as int)]));
            }
            i = i + 1;
        }
        proof {
            assert(lits@.subrange(0, lits@.len() as int) =~= lits@);
            lemma_distinct_vars_len(lits@, self.nv());
            self.lemma_lbd_counts_levels(lits@);
        }
        count_distinct(&levels) as u32
    }

    /// Simplifies an input clause at level 0: sorts its literals and drops
    /// repeats; `None` for a tautology or a clause with a true literal;
    /// otherwise the literals that are not false, in increasing order.
    #[verifier::loop_isolation(false)]
    #[verifier::rlimit(80)]
    #[verifier::spinoff_prover]
    fn simplify_input(&self, lits: Vec<Lit>) -> (r: Option<Vec<Lit>>)
        requires
            self.inv(),
            tautology(lits@) || in_range(lits@, self.nv()),
        ensures
            r is None <==> (tautology(lits@) || exists|k: int| 0 <= k < lits@.len() && self.is_true(#[trigger] lits@[k] as int)),
            r matches Some(kept) ==> {
                &&& strictly_sorted(kept@)
                &&& kept@.no_duplicates()
                &&& kept@.to_set() == lits@.to_set().filter(self.nonfalse())
                &&& kept@.to_set().len() == kept@.len()
                &&& forall|k: int| 0 <= k < kept@.len() ==> (#[trigger] kept@[k]) < 2 * self.nv() && !self.is_false(kept@[k] as int)
                &&& distinct_vars(kept@)
            },
    {
        let mut lits = lits;
        let ghost input = lits@;
        sort_u32(&mut lits);
        proof {
            crate::clause::lemma_multiset_same_set(lits@, input);
        }
        dedup_sorted(&mut lits);
        let ghost w = lits@;
        proof {
            lemma_tautology_adjacent(w);
            lemma_taut_same_set(input, w);
        }
        let n = lits.len();
        let mut i: usize = 0;
        while n > 0 && i < n - 1
            invariant
                n == lits@.len(),
                i <= n,
                lits@ == w,
                forall|a: int| 0 <= a < i && a < n - 1 ==> #[trigger] w[a] as int != neg_of(w[a + 1] as int),
            decreases n - i,
        {
            if lits[i] == lit_neg(lits[i + 1]) {
                return None;
            }
            i = i + 1;
        }
        proof {
            self.lemma_same_set_props(input, w);
        }
        let mut kept: Vec<Lit> = Vec::new();
        let mut i: usize = 0;
        while i < n
            invariant
                n == w.len(),
                lits@ == w,
                i <= n,
                self.inv_sizes(),
                forall|k: int| 0 <= k < w.len() ==> (#[trigger] w[k]) < 2 * self.nv(),
                kept@ == w.subrange(0, i as int).filter(self.nonfalse()),
            decreases n - i,
        {
            let l = lits[i];
            let v = eval_lit(&self.assigns, l);
            proof {
                assert(w.subrange(0, i + 1) =~= w.subrange(0, i as int).push(l));
                w.subrange(0, i as int).lemma_filter_push(l, self.nonfalse());
            }
            if v != LBOOL_FALSE {
                kept.push(l);
            }
            i = i + 1;
        }
        proof {
            assert(w.subrange(0, n as int) =~= w);
            self.lemma_kept_props(input, w, kept@);
        }
        let m = kept.len();
        let mut i: usize = 0;
        while i < m
            invariant
                m == kept@.len(),
                i <= m,
                self.inv_sizes(),
                forall|k: int| 0 <= k < kept@.len() ==> (#[trigger] kept@[k]) < 2 * self.nv(),
                forall|k: int| 0 <= k < i ==> !self.is_true(#[trigger] kept@[k] as int),
            decreases m - i,
        {
            if eval_lit(&self.assigns, kept[i]) == LBOOL_TRUE {
                proof {
                    self.lemma_true_in_input(input, kept@, i as int);
                }
                return None;
            }
            i = i + 1;
        }
        proof {
            self.lemma_no_true(input, w, kept@);
        }
        Some(kept)
    }

    /// Adds a clause.  An input clause (`learnt` false) is first simplified
    /// at level 0: literals are sorted and repeats dropped; a clause holding
    /// a literal and its complement, or a true literal, is dropped; false
    /// literals are removed; a clause left with one literal assigns it.  A
    /// clause of two or more literals is stored and watched on its first two
    /// literals; its index is returned.  A learnt clause is stored as given;
    /// its first literal is then still to be asserted (as `learn_clause`
    /// does), and until then the clause is exempt from the watch invariant.
    #[verifier::loop_isolation(false)]
    #[verifier::rlimit(90)]
    pub fn add_clause(&mut self, lits: Vec<Lit>, learnt: bool) -> (r: Option<usize>)
        requires
            old(self).inv(),
            old(self).inv_watch(),
            old(self).inv_sound(),
            tautology(lits@) || in_range(lits@, old(self).nv()),
            old(self).num_clauses() + 1 < REASON_UNDEF,
            !learnt ==> old(self).dlevel() == 0,
            learnt ==> lits@.len() >= 2 && distinct_vars(lits@) && in_range(lits@, old(self).nv()) && !old(self).is_false(
                lits@[0] as int,
            ) && implies_clause(old(self).formula(), old(self).nv(), lits@),
        ensures
            learnt ==> final(self).refuted_ok() == old(self).refuted_ok(),
            old(self).refuted_ok() ==> final(self).refuted_ok(),
            final(self).heap_ready() == old(self).heap_ready(),
            final(self).inv(),
            !learnt ==> final(self).inv_watch(),
            learnt ==> final(self).inv_watch_except(old(self).num_clauses()),
            final(self).inv_sound(),
            final(self).settled() == old(self).settled(),
            final(self).formula() == if learnt {
                old(self).formula()
            } else {
                old(self).formula().push(lits@)
            },
            final(self).dropped() == if learnt {
                old(self).dropped()
            } else {
                old(self).dropped().push(
                    !(tautology(lits@) || exists|k: int| 0 <= k < lits@.len() && old(self).is_true(#[trigger] lits@[k] as int))
                        && lits@.to_set().filter(old(self).nonfalse()).len() == 0,
                )
            },
            final(self).extends_db(*old(self)),
            final(self).num_clauses() <= old(self).num_clauses() + 1,
            r matches Some(cr) ==> {
                let l = final(self).clause_lits(cr as int);
                let x0 = neg_of(l[0] as int);
                let x1 = neg_of(l[1] as int);
                &&& final(self).watch_list(x0) == old(self).watch_list(x0).push((cr, l[1]))
                &&& final(self).watch_list(x1) == old(self).watch_list(x1).push((cr, l[0]))
                &&& forall|x: int|
                    0 <= x < 2 * old(self).nv() && x != x0 && x != x1 ==> #[trigger] final(self).watch_list(x)
                        == old(self).watch_list(x)
            },
            learnt ==> r == Some(old(self).num_clauses() as usize) && final(self).clause_lits(old(self).num_clauses()) == lits@
                && final(self).clause_learnt(old(self).num_clauses())
                && final(self).clause_lbd(old(self).num_clauses()) == old(self).lbd_of(lits@)
                && final(self).clause_lbd(old(self).num_clauses()) == old(self).levels_of(lits@).len()
                && final(self).num_clauses() == old(self).num_clauses() + 1
                && final(self).trail_view() == old(self).trail_view()
                && final(self).assigns_view() == old(self).assigns_view()
                && final(self).dlevel() == old(self).dlevel()
                && forall|v: int| 0 <= v < old(self).nv() ==> #[trigger] final(self).level_of(v) == old(self).level_of(v),
            !learnt ==> {
                let kept = lits@.to_set().filter(old(self).nonfalse());
                if tautology(lits@) || exists|k: int| 0 <= k < lits@.len() && old(self).is_true(#[trigger] lits@[k] as int) {
                    r is None && final(self).same_but_formula(*old(self))
                } else if kept.len() == 0 {
                    r is None && final(self).same_but_formula(*old(self))
                } else if kept.len() == 1 {
                    &&& r is None
                    &&& final(self).num_clauses() == old(self).num_clauses()
                    &&& final(self).trail_view() == old(self).trail_view().push(kept.choose())
                    &&& final(self).reason_of(var_of(kept.choose() as int)) == REASON_UNDEF
                    &&& forall|x: int| 0 <= x < 2 * old(self).nv() ==> #[trigger] final(self).watch_list(x) == old(self).watch_list(x)
                } else {
                    &&& r == Some(old(self).num_clauses() as usize)
                    &&& final(self).trail_view() == old(self).trail_view()
                    &&& final(self).assigns_view() == old(self).assigns_view()
                    &&& strictly_sorted(final(self).clause_lits(old(self).num_clauses()))
                    &&& final(self).clause_lits(old(self).num_clauses()).to_set() == kept
                    &&& !final(self).clause_learnt(old(self).num_clauses())
                    &&& final(self).clause_lbd(old(self).num_clauses()) == kept.len()
                }
            },
    {
        let ghost old_lits = lits@;
        proof {
            self.lemma_extends_refl();
        }
        let mut lits = lits;
        if !learnt {
            let ghost s_in = *self;
            self.formula = Ghost(self.formula@.push(lits@));
            proof {
                self.lemma_counter_frame(s_in);
                self.lemma_watch_frame(s_in);
                self.lemma_sound_more(s_in, lits@);
                self.lemma_extends_refl();
                assert(self.nonfalse() =~= s_in.nonfalse());
                assert forall|l: Lit| self.is_true(l as int) == s_in.is_true(l as int) by {}
            }
            match self.simplify_input(lits) {
                None => {
                    proof {
                        if !tautology(old_lits) {
                            let k = choose|k: int| 0 <= k < old_lits.len() && self.is_true(#[trigger] old_lits[k] as int);
                            self.lemma_true_held(old_lits, k);
                        }
                    }
                    let ghost s_f = *self;
                    self.dropped = Ghost(self.dropped@.push(false));
                    proof {
                        self.lemma_held_push(s_f, false);
                self.lemma_refuted_push(s_f, false);
                        self.lemma_counter_frame(s_f);
                        self.lemma_watch_frame(s_f);
                    }
                    return None;
                },
                Some(kept) => {
                    proof {
                        self.lemma_input_implied(old_lits, kept@);
                    }
                    lits = kept;
                },
            }
        }
        proof {
            if learnt {
                assert(lits@ == old_lits);
            }
        }
        if lits.len() == 0 {
            proof {
                assert forall|k: int| 0 <= k < old_lits.len() implies (#[trigger] old_lits[k] as int) < 2 * self.nv()
                    && self.is_false(old_lits[k] as int) by {
                    assert(old_lits.to_set().contains(old_lits[k]));
                    if !self.is_false(old_lits[k] as int) {
                        assert(lits@.to_set().contains(old_lits[k]));
                    }
                }
                self.lemma_root_false(old_lits);
            }
            let ghost s_f = *self;
            self.dropped = Ghost(self.dropped@.push(true));
            self.refuted = true;
            proof {
                self.lemma_held_push(s_f, true);
                self.lemma_refuted_push(s_f, true);
                self.lemma_counter_frame(s_f);
                self.lemma_watch_frame(s_f);
            }
            return None;
        }
        if lits.len() == 1 {
            let ghost s0 = *self;
            proof {
                lemma_value_of_neg(self.assigns@, lits@[0] as int);
                assert(lits@.to_set() =~= set![lits@[0]]);
            }
            proof {
                assert(lits@ =~= seq![lits@[0]]);
            }
            if eval_lit(&self.assigns, lits[0]) == LBOOL_UNDEF {
                self.enqueue(lits[0], REASON_UNDEF);
            }
            proof {
                assert(self.trail@.subrange(0, s0.trail@.len() as int) =~= s0.trail@);
                if !learnt {
                    let kept = old_lits.to_set().filter(s0.nonfalse());
                    assert(kept == set![lits@[0]]);
                    assert(kept.contains(kept.choose()));
                    assert(kept.choose() == lits@[0]);
                    assert(!s0.is_true(lits@[0] as int));
                    assert(!s0.is_false(lits@[0] as int));
                    assert(self.trail@ == s0.trail@.push(lits@[0]));
                    assert(old_lits.to_set().contains(lits@[0]));
                    assert(old_lits.contains(lits@[0]));
                    let j = s0.trail@.len() as int;
                    assert(self.trail@[j] == lits@[0]);
                    assert(self.level@[var_of(lits@[0] as int)] == 0);
                    assert(self.held_input(old_lits));
                }
            }
            if !learnt {
                let ghost s_f = *self;
                self.dropped = Ghost(self.dropped@.push(false));
                proof {
                    self.lemma_held_push(s_f, false);
                self.lemma_refuted_push(s_f, false);
                    self.lemma_counter_frame(s_f);
                    self.lemma_watch_frame(s_f);
                }
            }
            return None;
        }
        proof {
            lemma_distinct_vars_len(lits@, self.nv());
        }
        let lbd = if learnt {
            self.compute_lbd(&lits)
        } else {
            lits.len() as u32
        };
        let cr = self.clauses.len();
        let l0 = lits[0];
        let l1 = lits[1];
        let ghost s0 = *self;
        proof {
            assert(clause_wf(lits@, self.nv()));
            assert(var_of(l0 as int) != var_of(l1 as int));
        }
        let ghost lits_view = lits@;
        proof {
            assert(implies_clause(self.formula@, self.nv(), lits_view));
        }
        self.clauses.push(Clause { lits, learnt, lbd });
        let ghost s1 = *self;
        self.watches[lit_neg(l0) as usize].push((cr, l1));
        self.watches[lit_neg(l1) as usize].push((cr, l0));
        proof {
            assert(self.watches@[neg_of(l1 as int)]@ == s0.watches@[neg_of(l1 as int)]@.push((cr, l0)));
            self.lemma_add_inv(s0, cr as int);
            if !learnt {
                assert(!s0.is_false(lits_view[0] as int));
                assert(!s0.is_false(lits_view[1] as int));
                if self.falsified_before(lits_view[0] as int, self.settled@) {
                    s0.lemma_falsified_false(lits_view[0] as int, s0.settled@);
                }
                if self.falsified_before(lits_view[1] as int, self.settled@) {
                    s0.lemma_falsified_false(lits_view[1] as int, s0.settled@);
                }
                assert(self.settled_clause(cr as int, self.settled@));
            }
            self.lemma_add_watch(s0, cr as int);
            self.lemma_add_sound(s0, cr as int);
            if !learnt {
                assert(self.live(cr as int));
                assert(self.clauses@[cr as int].lits@.to_set().subset_of(old_lits.to_set()));
                assert(self.held_input(old_lits));
            }
        }
        if !learnt {
            let ghost s_f = *self;
            self.dropped = Ghost(self.dropped@.push(false));
            proof {
                self.lemma_held_push(s_f, false);
                self.lemma_refuted_push(s_f, false);
                self.lemma_counter_frame(s_f);
                self.lemma_watch_frame(s_f);
            }
        }
        Some(cr)
    }
}

impl Solver {
    /// `self` extends `old`: the same variables, every old clause unchanged
    /// (new ones may follow), the trail extended and old assignments kept.
    pub closed spec fn extends_db(&self, old: Solver) -> bool {
        &&& self.num_vars == old.num_vars
        &&& self.num_original_clauses == old.num_original_clauses
        &&& self.clauses@.len() >= old.clauses@.len()
        &&& forall|c: int| 0 <= c < old.clauses@.len() ==> #[trigger] self.clauses@[c] == old.clauses@[c]
        &&& old.trail@.len() <= self.trail@.len()
        &&& self.trail@.subrange(0, old.trail@.len() as int) == old.trail@
        &&& self.trail_lim@ == old.trail_lim@
        &&& forall|v: int| 0 <= v < self.nv() && old.assigned(v) ==> #[trigger] self.assigns@[v] == old.assigns@[v]
    }

    pub proof fn lemma_extends_refl(&self)
        ensures
            self.extends_db(*self),
    {
        assert(self.trail@.subrange(0, self.trail@.len() as int) =~= self.trail@);
    }

    proof fn lemma_same_set_props(&self, input: Seq<Lit>, w: Seq<Lit>)
        requires
            self.inv_sizes(),
            w.to_set() == input.to_set(),
            forall|k: int| 0 <= k < input.len() ==> (#[trigger] input[k]) < 2 * self.nv(),
        ensures
            forall|k: int| 0 <= k < w.len() ==> (#[trigger] w[k]) < 2 * self.nv(),
    {
        assert forall|k: int| 0 <= k < w.len() implies (#[trigger] w[k]) < 2 * self.nv() by {
            assert(w.to_set().contains(w[k]));
            assert(input.to_set().contains(w[k]));
        }
    }
}

/// Two lists with the same literals are both tautologies or neither.
pub proof fn lemma_taut_same_set(input: Seq<Lit>, w: Seq<Lit>)
    requires
        w.to_set() == input.to_set(),
    ensures
        tautology(input) <==> tautology(w),
{
        if tautology(input) {
            let (a, b) = choose|a: int, b: int|
                0 <= a < input.len() && 0 <= b < input.len() && input[b] as int == neg_of(input[a] as int);
            assert(input.to_set().contains(input[a]));
            assert(input.to_set().contains(input[b]));
            assert(w.to_set().contains(input[a]));
            assert(w.to_set().contains(input[b]));
            let a2 = choose|a2: int| 0 <= a2 < w.len() && w[a2] == input[a];
            let b2 = choose|b2: int| 0 <= b2 < w.len() && w[b2] == input[b];
            assert(w[b2] as int == neg_of(w[a2] as int));
        }
        if tautology(w) {
            let (a, b) = choose|a: int, b: int| 0 <= a < w.len() && 0 <= b < w.len() && w[b] as int == neg_of(w[a] as int);
            assert(w.to_set().contains(w[a]));
            assert(w.to_set().contains(w[b]));
            let a2 = choose|a2: int| 0 <= a2 < input.len() && input[a2] == w[a];
            let b2 = choose|b2: int| 0 <= b2 < input.len() && input[b2] == w[b];
            assert(input[b2] as int == neg_of(input[a2] as int));
        }
}

impl Solver {
    proof fn lemma_kept_props(&self, input: Seq<Lit>, w: Seq<Lit>, kept: Seq<Lit>)
        requires
            self.inv_sizes(),
            strictly_sorted(w),
            w.to_set() == input.to_set(),
            !tautology(w),
            forall|k: int| 0 <= k < w.len() ==> (#[trigger] w[k]) < 2 * self.nv(),
            kept == w.filter(self.nonfalse()),
        ensures
            strictly_sorted(kept),
            kept.no_duplicates(),
            kept.to_set() == input.to_set().filter(self.nonfalse()),
            kept.to_set().len() == kept.len(),
            forall|k: int| 0 <= k < kept.len() ==> (#[trigger] kept[k]) < 2 * self.nv() && !self.is_false(kept[k] as int),
            distinct_vars(kept),
            (exists|k: int| 0 <= k < input.len() && self.is_true(#[trigger] input[k] as int)) ==> exists|k: int|
                0 <= k < kept.len() && self.is_true(#[trigger] kept[k] as int),
    {
        let f = self.nonfalse();
        lemma_filter_sorted(w, f);
        assert forall|x: Lit| kept.to_set().contains(x) <==> input.to_set().filter(f).contains(x) by {
            if kept.contains(x) {
                w.lemma_filter_contains_rev(f, x);
                let i = choose|i: int| 0 <= i < kept.len() && kept[i] == x;
                w.filter_lemma(f);
                assert(f(kept[i]));
                assert(w.to_set().contains(x));
            }
            if input.to_set().filter(f).contains(x) {
                assert(w.to_set().contains(x));
                let i = choose|i: int| 0 <= i < w.len() && w[i] == x;
                w.filter_lemma(f);
                assert(kept.contains(x));
            }
        }
        assert(kept.to_set() =~= input.to_set().filter(f));
        assert(kept.no_duplicates());
        kept.unique_seq_to_set();
        w.filter_lemma(f);
        assert forall|k: int| 0 <= k < kept.len() implies (#[trigger] kept[k]) < 2 * self.nv() && !self.is_false(
            kept[k] as int,
        ) by {
            assert(f(kept[k]));
            w.lemma_filter_contains_rev(f, kept[k]);
        }
        assert forall|a: int, b: int| 0 <= a < kept.len() && 0 <= b < kept.len() && a != b implies var_of(
            kept[a] as int,
        ) != var_of(kept[b] as int) by {
            w.lemma_filter_contains_rev(f, kept[a]);
            w.lemma_filter_contains_rev(f, kept[b]);
            let a2 = choose|a2: int| 0 <= a2 < w.len() && w[a2] == kept[a];
            let b2 = choose|b2: int| 0 <= b2 < w.len() && w[b2] == kept[b];
            if var_of(kept[a] as int) == var_of(kept[b] as int) {
                assert(kept[a] != kept[b]);
                assert(w[b2] as int == neg_of(w[a2] as int));
            }
        }
        if exists|k: int| 0 <= k < input.len() && self.is_true(#[trigger] input[k] as int) {
            let k = choose|k: int| 0 <= k < input.len() && self.is_true(#[trigger] input[k] as int);
            assert(input.to_set().contains(input[k]));
            assert(w.to_set().contains(input[k]));
            let i = choose|i: int| 0 <= i < w.len() && w[i] == input[k];
            assert(f(w[i]));
            assert(kept.contains(w[i]));
            let j = choose|j: int| 0 <= j < kept.len() && kept[j] == w[i];
            assert(self.is_true(kept[j] as int));
        }
    }

    proof fn lemma_true_in_input(&self, input: Seq<Lit>, kept: Seq<Lit>, i: int)
        requires
            0 <= i < kept.len(),
            self.is_true(kept[i] as int),
            kept.to_set() == input.to_set().filter(self.nonfalse()),
        ensures
            exists|k: int| 0 <= k < input.len() && self.is_true(#[trigger] input[k] as int),
    {
        assert(kept.to_set().contains(kept[i]));
        assert(input.to_set().contains(kept[i]));
        let k = choose|k: int| 0 <= k < input.len() && input[k] == kept[i];
        assert(self.is_true(input[k] as int));
    }

    proof fn lemma_no_true(&self, input: Seq<Lit>, w: Seq<Lit>, kept: Seq<Lit>)
        requires
            forall|k: int| 0 <= k < kept.len() ==> !self.is_true(#[trigger] kept[k] as int),
            (exists|k: int| 0 <= k < input.len() && self.is_true(#[trigger] input[k] as int)) ==> exists|k: int|
                0 <= k < kept.len() && self.is_true(#[trigger] kept[k] as int),
        ensures
            !exists|k: int| 0 <= k < input.len() && self.is_true(#[trigger] input[k] as int),
    {
    }
}

/// Filtering a strictly sorted sequence keeps it strictly sorted.
pub proof fn lemma_filter_sorted(s: Seq<Lit>, f: spec_fn(Lit) -> bool)
    requires
        strictly_sorted(s),
    ensures
        strictly_sorted(s.filter(f)),
        forall|x: Lit| s.filter(f).contains(x) ==> s.contains(x),
    decreases s.len(),
{
    broadcast use vstd::seq_lib::group_seq_properties;
    if s.len() == 0 {
        assert(s.filter(f) =~= Seq::<Lit>::empty()) by {
            reveal(Seq::filter);
        }
    } else {
        let s0 = s.drop_last();
        let e = s.last();
        assert(s =~= s0.push(e));
        lemma_filter_sorted(s0, f);
        s0.lemma_filter_push(e, f);
        assert forall|x: Lit| s.filter(f).contains(x) implies s.contains(x) by {
            if x != e {
                assert(s0.filter(f).contains(x));
                assert(s0.contains(x));
                let i = choose|i: int| 0 <= i < s0.len() && s0[i] == x;
                assert(s[i] == x);
            } else {
                assert(s[s.len() - 1] == x);
            }
        }
        if f(e) {
            let fs = s0.filter(f);
            assert forall|a: int, b: int| 0 <= a < b < fs.push(e).len() implies fs.push(e)[a] < fs.push(e)[b] by {
                if b == fs.len() {
                    assert(fs.contains(fs[a]));
                    assert(s0.contains(fs[a]));
                    let i = choose|i: int| 0 <= i < s0.len() && s0[i] == fs[a];
                    assert(s[i] == fs[a]);
                    assert(s[i] < s[s.len() - 1]);
                }
            }
        }
    }
}

impl Solver {
    /// Storing a well-formed clause with index `cr` and watching its first
    /// two literals keeps the invariant.
    proof fn lemma_add_inv(&self, s0: Solver, cr: int)
        requires
            s0.inv(),
            cr == s0.clauses@.len(),
            self.clauses@.len() == cr + 1,
            forall|c: int| 0 <= c < cr ==> #[trigger] self.clauses@[c] == s0.clauses@[c],
            self.clauses@[cr].lits@.len() >= 2,
            clause_wf(self.clauses@[cr].lits@, self.nv()),
            cr + 1 < REASON_UNDEF,
            ({
                let l = self.clauses@[cr].lits@;
                let x0 = neg_of(l[0] as int);
                let x1 = neg_of(l[1] as int);
                &&& self.watches@.len() == s0.watches@.len()
                &&& self.watches@[x0]@ == s0.watches@[x0]@.push((cr as usize, l[1]))
                &&& self.watches@[x1]@ == s0.watches@[x1]@.push((cr as usize, l[0]))
                &&& forall|x: int| 0 <= x < self.watches@.len() && x != x0 && x != x1 ==> #[trigger] self.watches@[x] == s0.watches@[x]
            }),
            self.trail@ == s0.trail@,
            self.trail_lim@ == s0.trail_lim@,
            self.assigns@ == s0.assigns@,
            self.level@ == s0.level@,
            self.reason@ == s0.reason@,
            self.seen@ == s0.seen@,
            self.heap == s0.heap,
            self.heap_filled == s0.heap_filled,
            self.qhead == s0.qhead,
            self.num_vars == s0.num_vars,
            self.num_original_clauses == s0.num_original_clauses,
        ensures
            self.inv(),
            self.extends_db(s0),
    {
        let l = self.clauses@[cr].lits@;
        let x0 = neg_of(l[0] as int);
        let x1 = neg_of(l[1] as int);
        assert(var_of(l[0] as int) != var_of(l[1] as int));
        assert(x0 != x1);
        assert forall|c: int| 0 <= c < self.clauses@.len() implies clause_wf(#[trigger] self.clauses@[c].lits@, self.nv()) by {
            if c < cr {
                assert(clause_wf(s0.clauses@[c].lits@, s0.nv()));
            }
        }
        assert forall|i: int|
            0 <= i < s0.trail@.len() && s0.reason@[var_of(#[trigger] s0.trail@[i] as int)] != REASON_UNDEF
                implies self.clauses@[s0.reason@[var_of(s0.trail@[i] as int)] as int] == s0.clauses@[s0.reason@[var_of(
                s0.trail@[i] as int,
            )] as int] by {
            assert(s0.reason_ok(i));
        }
        self.lemma_trail_frame(s0, true);
        let ws = self.wview();
        let ws0 = s0.wview();
        assert forall|x: int, j: int| 0 <= x < ws.len() && 0 <= j < ws[x].len() implies #[trigger] self.entry_ok(
            x,
            ws[x][j],
        ) by {
            if (x == x0 || x == x1) && j == ws0[x].len() {
            } else {
                assert(ws[x][j] == ws0[x][j]);
                assert(s0.entry_ok(x, ws0[x][j]));
            }
        }
        assert forall|x: int, j1: int, j2: int|
            0 <= x < ws.len() && 0 <= j1 < ws[x].len() && 0 <= j2 < ws[x].len() && j1 != j2 implies #[trigger] ws[x][j1].0
            != #[trigger] ws[x][j2].0 by {
            if (x == x0 || x == x1) && (j1 == ws0[x].len() || j2 == ws0[x].len()) {
                let o = if j1 == ws0[x].len() { j2 } else { j1 };
                assert(s0.entry_ok(x, ws0[x][o]));
            } else {
                assert(ws[x][j1] == ws0[x][j1]);
                assert(ws[x][j2] == ws0[x][j2]);
            }
        }
        assert(self.trail@.subrange(0, s0.trail@.len() as int) =~= s0.trail@);
    }
}

impl Solver {
    /// `learnt` can be learnt now: a clause over distinct variables whose
    /// first literal is unassigned and whose other literals are false, the
    /// second at the current decision level; a unit clause only at level 0.
    pub closed spec fn learnable(&self, learnt: Seq<Lit>) -> bool {
        &&& learnt.len() >= 1
        &&& forall|k: int| 0 <= k < learnt.len() ==> (#[trigger] learnt[k]) < 2 * self.nv()
        &&& distinct_vars(learnt)
        &&& !self.assigned(var_of(learnt[0] as int))
        &&& forall|k: int| 1 <= k < learnt.len() ==> #[trigger] self.is_false(learnt[k] as int)
        &&& learnt.len() == 1 ==> self.trail_lim@.len() == 0
        &&& learnt.len() >= 2 ==> self.level@[var_of(learnt[1] as int)] == self.trail_lim@.len()
        &&& learnt.len() >= 2 ==> self.clauses@.len() + 1 < REASON_UNDEF
    }

    /// Whether the variables of `learnt` are distinct, found with the
    /// analysis marks (which are all clear again afterwards).
    fn distinct_vars_check(&mut self, learnt: &Vec<Lit>) -> (ok: bool)
        requires
            old(self).inv(),
            forall|k: int| 0 <= k < learnt@.len() ==> (#[trigger] learnt@[k]) < 2 * old(self).nv(),
        ensures
            final(self).refuted == old(self).refuted,
            final(self).inv(),
            final(self).same_but_scratch(*old(self)),
            ok == distinct_vars(learnt@),
    {
        let n = learnt.len();
        let mut i: usize = 0;
        let mut dup = false;
        while i < n && !dup
            invariant
                self.refuted == old(self).refuted,
                i <= n == learnt@.len(),
                self.same_but_scratch(*old(self)),
                self.seen@.len() == old(self).nv(),
                forall|k: int| 0 <= k < learnt@.len() ==> (#[trigger] learnt@[k]) < 2 * old(self).nv(),
                forall|v: int| 0 <= v < old(self).nv() ==> (#[trigger] self.seen@[v] <==> exists|k: int|
                    0 <= k < i && var_of(learnt@[k] as int) == v),
                distinct_vars(learnt@.subrange(0, i as int)),
                dup ==> !distinct_vars(learnt@),
            decreases n - i + (if dup { 0int } else { 1int }),
        {
            let v = lit_var(learnt[i]) as usize;
            if self.seen[v] {
                proof {
                    let k = choose|k: int| 0 <= k < i && var_of(learnt@[k] as int) == v;
                    assert(var_of(learnt@[k] as int) == var_of(learnt@[i as int] as int));
                }
                dup = true;
            } else {
                proof {
                    assert forall|b: int| 0 <= b < i implies var_of(#[trigger] learnt@[b] as int) != v by {
                        assert(self.seen@[var_of(learnt@[b] as int)]);
                    }
                }
                self.seen.set(v, true);
                proof {
                    let s = learnt@.subrange(0, i + 1);
                    assert forall|a: int, b: int|
                        0 <= a < s.len() && 0 <= b < s.len() && a != b implies var_of(s[a] as int) != var_of(
                        s[b] as int,
                    ) by {
                        if a < i && b < i {
                            assert(s[a] == learnt@.subrange(0, i as int)[a]);
                            assert(s[b] == learnt@.subrange(0, i as int)[b]);
                        } else if a == i {
                            assert(s[b] == learnt@[b]);
                        } else {
                            assert(s[a] == learnt@[a]);
                        }
                    }
                }
                i = i + 1;
            }
        }
        let mut j: usize = 0;
        while j < i
            invariant
                self.refuted == old(self).refuted,
                j <= i <= n == learnt@.len(),
                self.same_but_scratch(*old(self)),
                self.seen@.len() == old(self).nv(),
                forall|k: int| 0 <= k < learnt@.len() ==> (#[trigger] learnt@[k]) < 2 * old(self).nv(),
                forall|v: int| 0 <= v < old(self).nv() ==> (#[trigger] self.seen@[v] <==> exists|k: int|
                    j <= k < i && var_of(learnt@[k] as int) == v),
                distinct_vars(learnt@.subrange(0, i as int)),
            decreases i - j,
        {
            let v = lit_var(learnt[j]) as usize;
            self.seen.set(v, false);
            proof {
                assert forall|w: int| 0 <= w < old(self).nv() implies (#[trigger] self.seen@[w] <==> exists|k: int|
                    j + 1 <= k < i && var_of(learnt@[k] as int) == w) by {
                    if w != v && exists|k: int| j <= k < i && var_of(learnt@[k] as int) == w {
                        let k = choose|k: int| j <= k < i && var_of(learnt@[k] as int) == w;
                        assert(k != j);
                    }
                    if w == v && exists|k: int| j + 1 <= k < i && var_of(learnt@[k] as int) == w {
                        let k = choose|k: int| j + 1 <= k < i && var_of(learnt@[k] as int) == w;
                        let s = learnt@.subrange(0, i as int);
                        assert(s[k] == learnt@[k]);
                        assert(s[j as int] == learnt@[j as int]);
                    }
                }
            }
            j = j + 1;
        }
        proof {
            if !dup {
                assert(learnt@.subrange(0, n as int) =~= learnt@);
            }
            self.lemma_inv_back(*old(self));
        }
        !dup
    }

    /// Learns `learnt` after backjumping, as conflict analysis produces it:
    /// a unit clause assigns its literal at level 0; a longer one is stored
    /// as a learnt clause and its first literal is assigned with the new
    /// clause as reason.  A clause that is not `learnable` here is refused
    /// and nothing changes.
    pub fn learn_clause(&mut self, learnt: Vec<Lit>) -> (ok: bool)
        requires
            old(self).inv(),
            old(self).inv_watch(),
            old(self).inv_sound(),
            implies_clause(old(self).formula(), old(self).nv(), learnt@),
        ensures
            final(self).refuted_ok() == old(self).refuted_ok(),
            final(self).inv(),
            final(self).inv_watch(),
            final(self).inv_sound(),
            final(self).formula() == old(self).formula(),
            final(self).dropped() == old(self).dropped(),
            final(self).heap_ready() == old(self).heap_ready(),
            final(self).settled() == old(self).settled(),
            ok == old(self).learnable(learnt@),
            !ok ==> final(self).same_but_scratch(*old(self)),
            ok ==> final(self).extends_db(*old(self)),
            ok ==> final(self).trail_view() == old(self).trail_view().push(learnt@[0]),
            ok && learnt@.len() == 1 ==> final(self).num_clauses() == old(self).num_clauses()
                && final(self).reason_of(var_of(learnt@[0] as int)) == REASON_UNDEF,
            ok && learnt@.len() >= 2 ==> {
                let cr = old(self).num_clauses();
                &&& final(self).num_clauses() == cr + 1
                &&& final(self).clause_lits(cr) == learnt@
                &&& final(self).clause_learnt(cr)
                &&& final(self).clause_lbd(cr) == old(self).lbd_of(learnt@)
                &&& final(self).clause_lbd(cr) == old(self).levels_of(learnt@).len()
                &&& final(self).reason_of(var_of(learnt@[0] as int)) == cr as u32
            },
    {
        proof {
            self.lemma_lbd_counts_levels(learnt@);
        }
        let n = learnt.len();
        if n == 0 {
            return false;
        }
        let mut i: usize = 0;
        while i < n
            invariant
                self.refuted == old(self).refuted,
                i <= n == learnt@.len(),
                self.inv(),
                self.inv_watch(),
                self.inv_sound(),
                *self == *old(self),
                forall|k: int| 0 <= k < i ==> (#[trigger] learnt@[k]) < 2 * self.nv(),
            decreases n - i,
        {
            if learnt[i] >= 2 * self.num_vars {
                proof {
                    assert(!(learnt@[i as int] < 2 * self.nv()));
                }
                return false;
            }
            i = i + 1;
        }
        let dv = self.distinct_vars_check(&learnt);
        proof {
            self.lemma_watch_frame(*old(self));
            self.lemma_sound_same(*old(self));
        }
        if !dv {
            return false;
        }
        let ghost s0 = *self;
        if eval_lit(&self.assigns, learnt[0]) != LBOOL_UNDEF {
            proof {
                lemma_value_of_neg(self.assigns@, learnt@[0] as int);
            }
            return false;
        }
        let mut i: usize = 1;
        while i < n
            invariant
                self.refuted == old(self).refuted,
                1 <= i <= n == learnt@.len(),
                self.inv(),
                self.inv_watch(),
                self.inv_sound(),
                *self == s0,
                s0.same_but_scratch(*old(self)),
                forall|k: int| 0 <= k < learnt@.len() ==> (#[trigger] learnt@[k]) < 2 * self.nv(),
                forall|k: int| 1 <= k < i ==> #[trigger] self.is_false(learnt@[k] as int),
            decreases n - i,
        {
            if eval_lit(&self.assigns, learnt[i]) != LBOOL_FALSE {
                proof {
                    assert(!old(self).is_false(learnt@[i as int] as int));
                }
                return false;
            }
            i = i + 1;
        }
        proof {
            lemma_value_of_neg(self.assigns@, learnt@[0] as int);
            self.lemma_dlevel_bound();
        }
        let asserting = learnt[0];
        proof {
            assert(forall|k: int| 1 <= k < learnt@.len() ==> #[trigger] old(self).is_false(learnt@[k] as int) == s0.is_false(learnt@[k] as int));
        }
        if n == 1 {
            if self.trail_lim.len() != 0 {
                return false;
            }
            proof {
                assert(learnt@ =~= seq![asserting]);
            }
            self.enqueue(asserting, REASON_UNDEF);
            proof {
                assert(self.trail@.subrange(0, s0.trail@.len() as int) =~= s0.trail@);
            }
            return true;
        }
        if self.level[lit_var(learnt[1]) as usize] as usize != self.trail_lim.len() {
            return false;
        }
        if self.clauses.len() >= (REASON_UNDEF - 1) as usize {
            return false;
        }
        let ghost lv = learnt@;
        proof {
            assert forall|k: int| 1 <= k < lv.len() implies #[trigger] s0.falsified_before(lv[k] as int, s0.trail@.len() as int) by {
                s0.lemma_false_on_trail(lv[k] as int);
            }
        }
        let r = self.add_clause(learnt, true);
        let ghost s1 = *self;
        match r {
            Some(cr) => {
                proof {
                    assert forall|k: int| 1 <= k < lv.len() implies #[trigger] self.falsified_before(lv[k] as int, self.trail@.len() as int) by {
                        assert(s0.falsified_before(lv[k] as int, s0.trail@.len() as int));
                        let j = choose|j: int| 0 <= j < s0.trail@.len() && s0.trail@[j] as int == neg_of(lv[k] as int);
                        assert(self.trail@[j] == s0.trail@[j]);
                    }
                    assert(self.can_enqueue(asserting as int, cr as u32));
                    if self.trail_lim@.len() == 0 {
                        assert forall|k: int| 1 <= k < lv.len() implies #[trigger] self.is_false(lv[k] as int) by {
                            assert(s0.is_false(lv[k] as int));
                        }
                        self.lemma_unit_implied(lv);
                    }
                }
                self.enqueue(asserting, cr as u32);
                proof {
                    assert(self.trail@.subrange(0, s0.trail@.len() as int) =~= s0.trail@);
                    assert forall|c: int| 0 <= c < s0.clauses@.len() implies #[trigger] self.clauses@[c] == s0.clauses@[c] by {
                        assert(s1.clauses@[c] == s0.clauses@[c]);
                    }
                    assert(var_of(lv[1] as int) != var_of(lv[0] as int));
                    assert(lv[1] < 2 * s0.nv());
                    assert(s1.level_of(var_of(lv[1] as int)) == s0.level_of(var_of(lv[1] as int)));
                    assert(self.level@[var_of(lv[1] as int)] == s0.level@[var_of(lv[1] as int)]);
                    assert(self.level@[var_of(lv[0] as int)] == s1.trail_lim@.len());
                    self.lemma_learnt_settled(cr as int, lv);
                }
            },
            None => {},
        }
        true
    }
}

impl Solver {
    /// Once the first literal of a stored learnt clause `cr` is asserted at
    /// the level of its second, the watch invariant holds again.
    proof fn lemma_learnt_settled(&self, cr: int, lv: Seq<Lit>)
        requires
            self.inv(),
            self.inv_watch_except(cr),
            self.live(cr),
            self.clauses@[cr].lits@ == lv,
            self.is_true(lv[0] as int),
            self.level@[var_of(lv[0] as int)] == self.level@[var_of(lv[1] as int)],
        ensures
            self.inv_watch(),
    {
        assert(clause_wf(lv, self.nv()));
        if self.falsified_before(lv[0] as int, self.settled@) {
            self.lemma_falsified_false(lv[0] as int, self.settled@);
            lemma_value_of_neg(self.assigns@, lv[0] as int);
        }
        if self.falsified_before(lv[1] as int, self.settled@) {
            assert(self.is_true(self.clauses@[cr].lits@[0] as int));
            assert(self.true_upto(cr, self.level@[var_of(lv[1] as int)] as int));
        }
        assert(self.settled_clause(cr, self.settled@));
        assert forall|c: int| #[trigger] self.live(c) implies self.settled_clause(c, self.settled@) by {
            if c != cr {
                assert(self.settled_upto_except(self.settled@, cr));
            }
        }
    }
}

impl Solver {
    /// Conflict analysis followed by the backjump it asks for leaves a
    /// clause that can be learnt: its first literal is unassigned again,
    /// the others are still false, the second at the new decision level.
    pub proof fn lemma_analysis_learnable(s1: Solver, s2: Solver, learnt: Seq<Lit>, btlevel: u32)
        requires
            s1.inv(),
            s1.analysis_ok(learnt, btlevel),
            s2.inv(),
            s2.cancelled_from(s1, btlevel as int),
            s2.same_db(s1),
            learnt.len() >= 2 ==> s1.num_clauses() + 1 < REASON_UNDEF,
        ensures
            s2.learnable(learnt),
    {
        let d = s1.trail_lim@.len() as int;
        let b = btlevel as int;
        let limit = s1.trail_lim@[b] as int;
        let t = s1.trail@;
        let tl = s1.trail_lim@;
        assert forall|v: int, i: int|
            0 <= v < s1.nv() && 0 <= i < t.len() && var_of(t[i] as int) == v implies (limit <= i
                <==> s1.level@[v] > b) by {
            assert(s1.at_level(i, s1.level@[var_of(t[i] as int)] as int));
            let l = s1.level@[v] as int;
            if l > b {
                assert(tl[b] <= tl[l - 1]) by {
                    if b < l - 1 {
                        assert(tl[b] < tl[l - 1]);
                    }
                }
            } else {
                assert(l < tl.len());
                assert(tl[l] <= tl[b]) by {
                    if l < b {
                        assert(tl[l] < tl[b]);
                    }
                }
            }
        }
        let v0 = var_of(learnt[0] as int);
        assert(s1.is_false(learnt[0] as int));
        lemma_value_of_neg(s1.assigns@, learnt[0] as int);
        assert(s1.assigns@[v0] != LBOOL_UNDEF);
        let i0 = choose|i: int| 0 <= i < t.len() && var_of(#[trigger] t[i] as int) == v0;
        assert(s2.assigns@[v0] == LBOOL_UNDEF);
        assert forall|k: int| 1 <= k < learnt.len() implies #[trigger] s2.is_false(learnt[k] as int) by {
            let v = var_of(learnt[k] as int);
            assert(s1.is_false(learnt[k] as int));
            lemma_value_of_neg(s1.assigns@, learnt[k] as int);
            assert(0 < s1.level@[v] <= b);
            if exists|i: int| limit <= i < t.len() && var_of(t[i] as int) == v {
                let i = choose|i: int| limit <= i < t.len() && var_of(t[i] as int) == v;
                assert(false);
            }
            assert(s2.assigns@[v] == s1.assigns@[v]);
        }
        if learnt.len() >= 2 {
            let v1 = var_of(learnt[1] as int);
            assert(s2.is_false(learnt[1] as int));
            lemma_value_of_neg(s2.assigns@, learnt[1] as int);
            assert(s2.assigned(v1));
            assert(s2.level@[v1] == s1.level@[v1]);
        }
    }
}

// ---------------------------------------------------------------------------
// Decisions
// ---------------------------------------------------------------------------

impl Solver {
    /// `self` differs from `other` at most in the variable heap.
    pub closed spec fn same_but_heap(&self, other: Solver) -> bool {
        &&& self.num_vars == other.num_vars
        &&& self.num_original_clauses == other.num_original_clauses
        &&& self.clauses@ == other.clauses@
        &&& self.watches@ == other.watches@
        &&& self.assigns@ == other.assigns@
        &&& self.level@ == other.level@
        &&& self.reason@ == other.reason@
        &&& self.trail@ == other.trail@
        &&& self.trail_lim@ == other.trail_lim@
        &&& self.qhead == other.qhead
        &&& self.decisions == other.decisions
        &&& self.propagations == other.propagations
        &&& self.seen@ == other.seen@
        &&& self.analyze_toclear@ == other.analyze_toclear@
        &&& self.settled == other.settled
        &&& self.formula == other.formula
        &&& self.dropped == other.dropped
        &&& self.heap_filled == other.heap_filled
    }

    /// A change of the heap alone keeps the invariant if the heap stays
    /// well formed over the same variables and still holds every
    /// unassigned variable.
    proof fn lemma_heap_frame(&self, pre: Solver)
        requires
            pre.inv(),
            self.same_but_heap(pre),
            self.heap.wf(),
            self.heap.num_vars() == self.nv(),
            self.inv_heap(),
        ensures
            self.inv(),
    {
        self.lemma_trail_frame(pre, true);
        self.lemma_watches_ok_frame(pre, self.wview());
        assert(self.wview() == pre.wview());
    }

    /// The invariant, except that the unassigned variable `v` may be
    /// missing from the heap (it is about to be decided).
    pub closed spec fn inv_picked(&self, v: int) -> bool {
        &&& self.inv_sizes()
        &&& self.inv_clauses()
        &&& self.inv_watches()
        &&& self.inv_trail()
        &&& self.inv_seen()
        &&& forall|u: Var| u < self.nv() && u != v && !self.assigned(u as int) ==> #[trigger] self.heap.contents().contains(u)
    }

    /// Takes variables off the heap, highest activity first, until an
    /// unassigned one comes up and returns it; `None` once the heap is
    /// empty, which happens only when every variable is assigned.
    fn pick_branch_var(&mut self) -> (r: Option<Var>)
        requires
            old(self).heap_ready(),
            old(self).inv(),
        ensures
            final(self).refuted == old(self).refuted,
            final(self).same_but_heap(*old(self)),
            final(self).heap.wf(),
            final(self).heap.num_vars() == old(self).nv(),
            final(self).heap.keys() == old(self).heap.keys(),
            final(self).heap.contents().subset_of(old(self).heap.contents()),
            forall|u: Var| #[trigger] old(self).heap.contents().contains(u) && !final(self).heap.contents().contains(u)
                ==> old(self).assigned(u as int) || r == Some(u),
            r is None <==> forall|v: int| 0 <= v < old(self).nv() ==> #[trigger] old(self).assigned(v),
            r is None ==> final(self).inv(),
            r matches Some(v) ==> {
                &&& (v as int) < old(self).nv()
                &&& !old(self).assigned(v as int)
                &&& !final(self).heap.contents().contains(v)
                &&& final(self).inv_picked(v as int)
                &&& forall|u: Var| (u as int) < old(self).nv() && !#[trigger] old(self).assigned(u as int)
                    ==> old(self).heap.keys()[u as int] <= old(self).heap.keys()[v as int]
            },
            old(self).heap.order().len() > 0 && !old(self).assigned(old(self).heap.order()[0] as int) ==> r
                == Some(old(self).heap.order()[0]),
    {
        loop
            invariant
                self.refuted == old(self).refuted,
                old(self).heap.order().len() > 0 && !old(self).assigned(old(self).heap.order()[0] as int)
                    ==> self.heap == old(self).heap,
                old(self).inv(),
                old(self).heap_ready(),
                self.same_but_heap(*old(self)),
                self.heap.wf(),
                self.heap.num_vars() == old(self).nv(),
                self.heap.keys() == old(self).heap.keys(),
                self.inv_heap(),
                self.heap.contents().subset_of(old(self).heap.contents()),
                forall|u: Var| #[trigger] old(self).heap.contents().contains(u) && !self.heap.contents().contains(u)
                    ==> old(self).assigned(u as int),
            decreases self.heap.contents().len(),
        {
            proof {
                self.heap.lemma_contents();
            }
            let ghost h0 = self.heap;
            match self.heap.remove_top() {
                None => {
                    proof {
                        self.lemma_heap_frame(*old(self));
                        assert forall|v: int| 0 <= v < old(self).nv() implies #[trigger] old(self).assigned(v) by {
                            if !self.assigned(v) {
                                assert(h0.contents().contains(v as Var));
                            }
                        }
                    }
                    return None;
                },
                Some(v) => {
                    proof {
                        h0.lemma_contents();
                    }
                    if self.assigns[v as usize] == LBOOL_UNDEF {
                        proof {
                            assert forall|u: Var| (u as int) < old(self).nv() && !#[trigger] old(self).assigned(u as int)
                                implies old(self).heap.keys()[u as int] <= old(self).heap.keys()[v as int] by {
                                assert(h0.contents().contains(u));
                            }
                            self.lemma_trail_frame(*old(self), true);
                            self.lemma_watches_ok_frame(*old(self), self.wview());
                            assert(self.wview() == old(self).wview());
                            assert(!(forall|w: int| 0 <= w < old(self).nv() ==> #[trigger] old(self).assigned(w))) by {
                                assert(!old(self).assigned(v as int));
                            }
                        }
                        return Some(v);
                    }
                },
            }
        }
    }

    /// Makes a decision: picks an unassigned variable of highest activity,
    /// opens a new decision level and assigns the variable false.  Returns
    /// the variable, or `None` when every variable is already assigned.
    pub fn decide(&mut self) -> (r: Option<Var>)
        requires
            old(self).heap_ready(),
            old(self).inv(),
            old(self).inv_watch(),
            old(self).inv_sound(),
            old(self).settled(),
            old(self).qhead_view() == old(self).trail_view().len(),
        ensures
            final(self).refuted_ok() == old(self).refuted_ok(),
            final(self).inv(),
            final(self).inv_watch(),
            final(self).inv_sound(),
            final(self).formula() == old(self).formula(),
            final(self).dropped() == old(self).dropped(),
            final(self).heap_ready() == old(self).heap_ready(),
            final(self).settled(),
            final(self).heap_view().keys() == old(self).heap_view().keys(),
            r is None <==> forall|v: int| 0 <= v < old(self).nv() ==> #[trigger] old(self).assigned(v),
            r is None ==> final(self).same_but_heap(*old(self)),
            r is None ==> final(self).qhead_view() == final(self).trail_view().len() && forall|v: int|
                0 <= v < final(self).nv() ==> #[trigger] final(self).assigned(v),
            r matches Some(v) ==> {
                &&& (v as int) < old(self).nv()
                &&& !old(self).assigned(v as int)
                &&& forall|u: Var| (u as int) < old(self).nv() && !#[trigger] old(self).assigned(u as int)
                    ==> old(self).heap_view().keys()[u as int] <= old(self).heap_view().keys()[v as int]
                &&& final(self).same_db(*old(self))
                &&& final(self).trail_view() == old(self).trail_view().push((2 * v + 1) as Lit)
                &&& final(self).trail_lim_view() == old(self).trail_lim_view().push(old(self).trail_view().len() as usize)
                &&& final(self).qhead_view() == old(self).qhead_view()
                &&& final(self).assigns_view() == old(self).assigns_view().update(v as int, LBOOL_FALSE)
                &&& final(self).level_of(v as int) == old(self).dlevel() + 1
                &&& final(self).reason_of(v as int) == REASON_UNDEF
                &&& final(self).decisions_made() == old(self).decisions_made().wrapping_add(1)
                &&& old(self).heap_view().order().len() > 0 && !old(self).assigned(
                    old(self).heap_view().order()[0] as int,
                ) ==> v == old(self).heap_view().order()[0]
                &&& forall|u: int|
                    0 <= u < old(self).nv() && u != v ==> #[trigger] final(self).reason_of(u) == old(self).reason_of(u)
                        && final(self).level_of(u) == old(self).level_of(u)
                &&& !final(self).heap_view().contents().contains(v)
            },
    {
        match self.pick_branch_var() {
            None => {
                proof {
                    self.lemma_watch_frame(*old(self));
                    self.lemma_sound_same(*old(self));
                    assert forall|v: int| 0 <= v < self.nv() implies #[trigger] self.assigned(v) by {
                        assert(old(self).assigned(v));
                    }
                }
                None
            },
            Some(var) => {
                let ghost s1 = *self;
                proof {
                    self.lemma_dlevel_bound();
                }
                self.trail_lim.push(self.trail.len());
                let lit = 2 * var + 1;
                proof {
                    assert(var_of(lit as int) == var);
                    self.lemma_decide_pending(s1, var as int);
                    self.lemma_watch_frame(*old(self));
                    self.lemma_sound_same(*old(self));
                }
                self.enqueue(lit, REASON_UNDEF);
                let ghost s2 = *self;
                self.decisions = self.decisions.wrapping_add(1);
                proof {
                    self.lemma_counter_frame(s2);
                    self.lemma_watch_frame(s2);
                    self.lemma_sound_same(s2);
                }
                Some(var)
            },
        }
    }

    /// Opening a new decision level over a fully propagated trail leaves a
    /// state in which the picked variable can be decided.
    proof fn lemma_decide_pending(&self, s1: Solver, v: int)
        requires
            s1.inv_picked(v),
            s1.qhead == s1.trail@.len(),
            0 <= v < s1.nv(),
            !s1.assigned(v),
            self.trail_lim@ == s1.trail_lim@.push(s1.trail@.len() as usize),
            self.trail@ == s1.trail@,
            self.assigns@ == s1.assigns@,
            self.level@ == s1.level@,
            self.reason@ == s1.reason@,
            self.clauses@ == s1.clauses@,
            self.watches@ == s1.watches@,
            self.heap == s1.heap,
            self.heap_filled == s1.heap_filled,
            self.seen@ == s1.seen@,
            self.qhead == s1.qhead,
            self.num_vars == s1.num_vars,
        ensures
            self.inv_pending_except(v),
            self.can_enqueue(2 * v + 1, REASON_UNDEF),
    {
        let t = self.trail@;
        let tl = self.trail_lim@;
        let tl0 = s1.trail_lim@;
        assert forall|i: int| 0 <= i < t.len() implies #[trigger] self.at_level(
            i,
            self.level@[var_of(t[i] as int)] as int,
        ) by {
            let l = s1.level@[var_of(t[i] as int)] as int;
            assert(s1.at_level(i, l));
            if l > 0 {
                assert(tl[l - 1] == tl0[l - 1]);
            }
            if l < tl0.len() {
                assert(tl[l] == tl0[l]);
            } else {
                assert(tl[l] == t.len());
            }
        }
        assert forall|i: int| 0 <= i < t.len() implies #[trigger] self.reason_ok(i) by {
            assert(s1.reason_ok(i));
            let r = s1.reason@[var_of(t[i] as int)];
            if r != REASON_UNDEF {
                assert forall|k: int| 1 <= k < self.clauses@[r as int].lits@.len() implies #[trigger] self.falsified_before(
                    self.clauses@[r as int].lits@[k] as int,
                    i,
                ) by {
                    assert(s1.falsified_before(s1.clauses@[r as int].lits@[k] as int, i));
                }
            } else {
                let l = s1.level@[var_of(t[i] as int)] as int;
                assert(s1.at_level(i, l));
                if l > 0 {
                    assert(tl[l - 1] == tl0[l - 1]);
                }
            }
        }
        assert forall|a: int, b: int| 0 <= a < b < tl.len() implies #[trigger] tl[a] < #[trigger] tl[b] by {
            if b < tl0.len() {
                assert(tl0[a] < tl0[b]);
            } else if tl0.len() > 0 {
                assert(tl0[a] <= tl0.last());
                if a < tl0.len() - 1 {
                    assert(tl0[a] < tl0[tl0.len() - 1]);
                }
            }
        }
        assert(forall|k: int| 0 <= k < tl.len() ==> #[trigger] tl[k] <= t.len());
        assert forall|i: int| 0 <= i < t.len() implies (#[trigger] t[i]) < 2 * self.nv() && self.is_true(
            t[i] as int,
        ) by {
            assert(s1.is_true(t[i] as int));
        }
        assert forall|w: int|
            0 <= w < self.nv() && #[trigger] self.assigns@[w] != LBOOL_UNDEF implies exists|i: int|
            0 <= i < t.len() && var_of(#[trigger] t[i] as int) == w by {
            assert(s1.assigns@[w] != LBOOL_UNDEF);
        }
        assert(self.inv_trail_gen(false));
        self.lemma_watches_ok_frame(s1, self.wview());
        assert(self.wview() == s1.wview());
        assert(var_of(2 * v + 1) == v) by (nonlinear_arith);
    }

    /// The statistics counters play no part in the invariant.
    proof fn lemma_counter_frame(&self, pre: Solver)
        requires
            pre.inv(),
            self.num_vars == pre.num_vars,
            self.num_original_clauses == pre.num_original_clauses,
            self.clauses@ == pre.clauses@,
            self.watches@ == pre.watches@,
            self.assigns@ == pre.assigns@,
            self.level@ == pre.level@,
            self.reason@ == pre.reason@,
            self.trail@ == pre.trail@,
            self.trail_lim@ == pre.trail_lim@,
            self.qhead == pre.qhead,
            self.heap == pre.heap,
            self.heap_filled == pre.heap_filled,
            self.seen@ == pre.seen@,
        ensures
            self.inv(),
    {
        self.lemma_trail_frame(pre, true);
        self.lemma_watches_ok_frame(pre, self.wview());
        assert(self.wview() == pre.wview());
    }

    /// The number of decisions made (counted modulo 2^64).
    pub closed spec fn decisions_made(&self) -> u64 {
        self.decisions
    }
}

// ---------------------------------------------------------------------------
// Clause deletion
// ---------------------------------------------------------------------------

/// `w` without the first entry for clause `cr`, whose place the last entry
/// takes; `w` itself if it has no entry for `cr`.
pub open spec fn without_clause(w: Seq<(usize, Lit)>, cr: usize) -> Seq<(usize, Lit)> {
    if exists|j: int| 0 <= j < w.len() && (#[trigger] w[j]).0 == cr {
        let p = choose|p: int|
            0 <= p < w.len() && (#[trigger] w[p]).0 == cr && forall|j: int| 0 <= j < p ==> (#[trigger] w[j]).0 != cr;
        w.update(p, w.last()).drop_last()
    } else {
        w
    }
}

impl Solver {
    /// Some variable of clause `cr` is assigned with `cr` as its reason.
    pub closed spec fn is_reason(&self, cr: int) -> bool {
        exists|k: int|
            0 <= k < self.clauses@[cr].lits@.len() && self.assigned(var_of(#[trigger] self.clauses@[cr].lits@[k] as int))
                && self.reason@[var_of(self.clauses@[cr].lits@[k] as int)] == cr
    }

    /// Whether clause `cr` is the reason of one of its assigned variables.
    pub fn is_clause_reason(&self, cr: usize) -> (r: bool)
        requires
            self.inv(),
            cr < self.num_clauses(),
        ensures
            r == self.is_reason(cr as int),
    {
        let n = self.clauses[cr].lits.len();
        let mut k: usize = 0;
        while k < n
            invariant
                self.inv(),
                cr < self.clauses@.len(),
                n == self.clauses@[cr as int].lits@.len(),
                k <= n,
                forall|i: int| 0 <= i < k ==> !(self.assigned(var_of(#[trigger] self.clauses@[cr as int].lits@[i] as int))
                    && self.reason@[var_of(self.clauses@[cr as int].lits@[i] as int)] == cr),
            decreases n - k,
        {
            let lit = self.clauses[cr].lits[k];
            proof {
                assert(clause_wf(self.clauses@[cr as int].lits@, self.nv()));
            }
            let var = lit_var(lit) as usize;
            if self.assigns[var] != LBOOL_UNDEF && self.reason[var] == cr as u32 {
                return true;
            }
            k = k + 1;
        }
        false
    }

    /// Removes the first watch entry for clause `cr` from `wl`, moving the
    /// last entry into its place.
    fn remove_watch_static(wl: &mut Vec<(usize, Lit)>, cr: usize)
        ensures
            final(wl)@ == without_clause(old(wl)@, cr),
    {
        let n = wl.len();
        let mut p: usize = 0;
        while p < n
            invariant
                n == wl@.len(),
                wl@ == old(wl)@,
                p <= n,
                forall|j: int| 0 <= j < p ==> (#[trigger] wl@[j]).0 != cr,
            decreases n - p,
        {
            if wl[p].0 == cr {
                proof {
                    let w = old(wl)@;
                    assert(exists|j: int| 0 <= j < w.len() && (#[trigger] w[j]).0 == cr) by {
                        assert(w[p as int].0 == cr);
                    }
                    let q = choose|q: int|
                        0 <= q < w.len() && (#[trigger] w[q]).0 == cr && forall|j: int| 0 <= j < q ==> (#[trigger] w[j]).0 != cr;
                    if q < p {
                        assert(w[q].0 != cr);
                    }
                    if p < q {
                        assert(w[p as int].0 != cr);
                    }
                }
                wl.swap_remove(p);
                return;
            }
            p = p + 1;
        }
    }
}

/// Removing a clause's entry from a watch list in which no clause appears
/// twice leaves entries of the old list, none for that clause, still no
/// clause twice.
pub proof fn lemma_without_clause(w: Seq<(usize, Lit)>, cr: usize)
    requires
        forall|j1: int, j2: int| 0 <= j1 < w.len() && 0 <= j2 < w.len() && j1 != j2 ==> #[trigger] w[j1].0 != #[trigger] w[j2].0,
    ensures
        ({
            let r = without_clause(w, cr);
            &&& forall|j: int| 0 <= j < r.len() ==> (#[trigger] r[j]).0 != cr && w.contains(r[j])
            &&& forall|j1: int, j2: int| 0 <= j1 < r.len() && 0 <= j2 < r.len() && j1 != j2 ==> #[trigger] r[j1].0 != #[trigger] r[j2].0
            &&& (forall|j: int| 0 <= j < w.len() ==> (#[trigger] w[j]).0 != cr) ==> r == w
            &&& forall|j: int| 0 <= j < w.len() && (#[trigger] w[j]).0 != cr ==> r.contains(w[j])
        }),
{
    let r = without_clause(w, cr);
    if exists|j: int| 0 <= j < w.len() && (#[trigger] w[j]).0 == cr {
        let p = choose|p: int|
            0 <= p < w.len() && (#[trigger] w[p]).0 == cr && forall|j: int| 0 <= j < p ==> (#[trigger] w[j]).0 != cr;
        assert(exists|p: int|
            0 <= p < w.len() && (#[trigger] w[p]).0 == cr && forall|j: int| 0 <= j < p ==> (#[trigger] w[j]).0 != cr) by {
            let j0 = choose|j: int| 0 <= j < w.len() && (#[trigger] w[j]).0 == cr;
            assert forall|j: int| 0 <= j < j0 implies (#[trigger] w[j]).0 != cr by {
                assert(w[j].0 != w[j0].0);
            }
        }
        let n = w.len() as int;
        assert(r == w.update(p, w.last()).drop_last());
        assert forall|j: int| 0 <= j < r.len() implies (#[trigger] r[j]).0 != cr && w.contains(r[j]) by {
            if j == p {
                assert(r[j] == w[n - 1]);
                assert(p != n - 1);
                assert(w[n - 1].0 != w[p].0);
            } else {
                assert(r[j] == w[j]);
                assert(w[j].0 != w[p].0);
            }
        }
        assert forall|j1: int, j2: int| 0 <= j1 < r.len() && 0 <= j2 < r.len() && j1 != j2 implies #[trigger] r[j1].0
            != #[trigger] r[j2].0 by {
            let m1 = if j1 == p { n - 1 } else { j1 };
            let m2 = if j2 == p { n - 1 } else { j2 };
            assert(r[j1] == w[m1]);
            assert(r[j2] == w[m2]);
        }
        assert forall|j: int| 0 <= j < w.len() && (#[trigger] w[j]).0 != cr implies r.contains(w[j]) by {
            if j == n - 1 {
                assert(r[p] == w[j]);
            } else {
                assert(r[j] == w[j]);
            }
        }
    }
}

impl Solver {
    /// Deletes clause `cr`: drops its watch entries and empties it.
    #[verifier::rlimit(40)]
    fn remove_clause(&mut self, cr: usize)
        requires
            old(self).inv(),
            old(self).inv_watch(),
            old(self).inv_sound(),
            old(self).live(cr as int),
            old(self).clause_learnt(cr as int),
            !old(self).is_reason(cr as int),
        ensures
            final(self).refuted == old(self).refuted,
            final(self).inv(),
            final(self).inv_watch(),
            final(self).inv_sound(),
            final(self).formula() == old(self).formula(),
            final(self).dropped() == old(self).dropped(),
            final(self).heap_ready() == old(self).heap_ready(),
            final(self).clauses@.len() == old(self).clauses@.len(),
            forall|c: int| 0 <= c < old(self).clauses@.len() && c != cr ==> #[trigger] final(self).clauses@[c] == old(self).clauses@[c],
            final(self).clause_lits(cr as int) == Seq::<Lit>::empty(),
            !final(self).clause_learnt(cr as int),
            final(self).clause_lbd(cr as int) == old(self).clause_lbd(cr as int),
            final(self).watches@.len() == old(self).watches@.len(),
            forall|x: int| 0 <= x < old(self).watches@.len() ==> #[trigger] final(self).watch_list(x) == without_clause(old(self).watch_list(x), cr),
            final(self).same_but_clauses(*old(self)),
    {
        let l0 = self.clauses[cr].lits[0];
        let l1 = self.clauses[cr].lits[1];
        let ghost s0 = *self;
        proof {
            assert(clause_wf(self.clauses@[cr as int].lits@, self.nv()));
            assert(var_of(l0 as int) != var_of(l1 as int));
        }
        Self::remove_watch_static(&mut self.watches[lit_neg(l0) as usize], cr);
        Self::remove_watch_static(&mut self.watches[lit_neg(l1) as usize], cr);
        let lbd = self.clauses[cr].lbd;
        self.clauses.set(cr, Clause { lits: Vec::new(), learnt: false, lbd });
        proof {
            self.lemma_remove_inv(s0, cr);
            self.lemma_remove_watch(s0, cr);
            assert forall|c: int| #[trigger] self.live(c) implies implies_clause(self.formula@, self.nv(), self.clauses@[c].lits@) by {
                assert(c != cr);
                assert(s0.live(c));
            }
            assert forall|c: int| #[trigger] s0.live(c) && !s0.clauses@[c].learnt implies self.live(c)
                && !self.clauses@[c].learnt && self.clauses@[c].lits@.to_set() == s0.clauses@[c].lits@.to_set() by {
                assert(c != cr);
            }
            self.lemma_held_frame(s0);
        }
    }

    /// `self` differs from `other` at most in the recorded input clauses.
    pub closed spec fn same_but_formula(&self, other: Solver) -> bool {
        &&& self.num_vars == other.num_vars
        &&& self.num_original_clauses == other.num_original_clauses
        &&& self.clauses@ == other.clauses@
        &&& self.watches@ == other.watches@
        &&& self.assigns@ == other.assigns@
        &&& self.level@ == other.level@
        &&& self.reason@ == other.reason@
        &&& self.trail@ == other.trail@
        &&& self.trail_lim@ == other.trail_lim@
        &&& self.qhead == other.qhead
        &&& self.heap == other.heap
        &&& self.heap_filled == other.heap_filled
        &&& self.decisions == other.decisions
        &&& self.propagations == other.propagations
        &&& self.seen@ == other.seen@
        &&& self.settled == other.settled
    }

    /// `self` differs from `other` at most in the clauses and watch lists.
    pub closed spec fn same_but_clauses(&self, other: Solver) -> bool {
        &&& self.num_vars == other.num_vars
        &&& self.num_original_clauses == other.num_original_clauses
        &&& self.assigns@ == other.assigns@
        &&& self.level@ == other.level@
        &&& self.reason@ == other.reason@
        &&& self.trail@ == other.trail@
        &&& self.trail_lim@ == other.trail_lim@
        &&& self.qhead == other.qhead
        &&& self.heap == other.heap
        &&& self.heap_filled == other.heap_filled
        &&& self.decisions == other.decisions
        &&& self.propagations == other.propagations
        &&& self.seen@ == other.seen@
        &&& self.settled == other.settled
        &&& self.formula == other.formula
        &&& self.dropped == other.dropped
    }

    proof fn lemma_remove_inv(&self, s0: Solver, cr: usize)
        requires
            s0.inv(),
            s0.live(cr as int),
            !s0.is_reason(cr as int),
            self.same_but_clauses(s0),
            self.clauses@ == s0.clauses@.update(cr as int, self.clauses@[cr as int]),
            self.clauses@[cr as int].lits@.len() == 0,
            self.watches@.len() == s0.watches@.len(),
            ({
                let x0 = neg_of(s0.clauses@[cr as int].lits@[0] as int);
                let x1 = neg_of(s0.clauses@[cr as int].lits@[1] as int);
                forall|x: int| 0 <= x < self.watches@.len() ==> #[trigger] self.watches@[x]@ == if x == x0 || x == x1 {
                    without_clause(s0.watches@[x]@, cr)
                } else {
                    s0.watches@[x]@
                }
            }),
        ensures
            self.inv(),
            forall|x: int| 0 <= x < s0.watches@.len() ==> #[trigger] self.watches@[x]@ == without_clause(s0.watches@[x]@, cr),
    {
        let ws = self.wview();
        let ws0 = s0.wview();
        let l = s0.clauses@[cr as int].lits@;
        let x0 = neg_of(l[0] as int);
        let x1 = neg_of(l[1] as int);
        assert forall|x: int| 0 <= x < s0.watches@.len() implies #[trigger] self.watches@[x]@ == without_clause(
            s0.watches@[x]@,
            cr,
        ) by {
            assert(ws0[x] == s0.watches@[x]@);
            lemma_without_clause(ws0[x], cr);
            if x != x0 && x != x1 {
                assert forall|j: int| 0 <= j < ws0[x].len() implies (#[trigger] ws0[x][j]).0 != cr by {
                    assert(s0.entry_ok(x, ws0[x][j]));
                }
            }
        }
        assert forall|x: int, j: int| 0 <= x < ws.len() && 0 <= j < ws[x].len() implies #[trigger] self.entry_ok(
            x,
            ws[x][j],
        ) by {
            assert(ws[x] == without_clause(ws0[x], cr));
            lemma_without_clause(ws0[x], cr);
            assert(ws0[x].contains(ws[x][j]));
            let j0 = choose|j0: int| 0 <= j0 < ws0[x].len() && ws0[x][j0] == ws[x][j];
            assert(s0.entry_ok(x, ws0[x][j0]));
        }
        assert forall|x: int, j1: int, j2: int|
            0 <= x < ws.len() && 0 <= j1 < ws[x].len() && 0 <= j2 < ws[x].len() && j1 != j2 implies #[trigger] ws[x][j1].0
            != #[trigger] ws[x][j2].0 by {
            assert(ws[x] == without_clause(ws0[x], cr));
            lemma_without_clause(ws0[x], cr);
        }
        assert forall|c: int| 0 <= c < self.clauses@.len() implies clause_wf(#[trigger] self.clauses@[c].lits@, self.nv()) by {
            if c != cr {
                assert(clause_wf(s0.clauses@[c].lits@, s0.nv()));
            }
        }
        assert forall|i: int|
            0 <= i < s0.trail@.len() && s0.reason@[var_of(#[trigger] s0.trail@[i] as int)] != REASON_UNDEF
                implies self.clauses@[s0.reason@[var_of(s0.trail@[i] as int)] as int] == s0.clauses@[s0.reason@[var_of(
                s0.trail@[i] as int,
            )] as int] by {
            assert(s0.reason_ok(i));
            let v = var_of(s0.trail@[i] as int);
            let r = s0.reason@[v];
            if r == cr {
                assert(s0.is_true(s0.trail@[i] as int));
                assert(s0.assigned(v));
                assert(s0.clauses@[cr as int].lits@[0] == s0.trail@[i]);
                assert(s0.is_reason(cr as int));
            }
        }
        self.lemma_trail_frame(s0, true);
    }

    /// Whether clause `c` may be deleted: a live learnt clause past the
    /// original ones, with an LBD above 2, that is no variable's reason.
    pub open spec fn deletable(&self, c: int) -> bool {
        &&& self.original_clauses() <= c
        &&& self.live(c)
        &&& self.clause_learnt(c)
        &&& self.clause_lbd(c) > 2
        &&& !self.is_reason(c)
    }

    /// The indices of the live learnt clauses past the original ones, in
    /// increasing order.
    pub fn learnt_indices(&self) -> (r: Vec<usize>)
        requires
            self.inv(),
        ensures
            forall|a: int, b: int| 0 <= a < b < r@.len() ==> #[trigger] r@[a] < #[trigger] r@[b],
            forall|c: usize| #[trigger] r@.contains(c) <==> (self.original_clauses() <= c && self.live(c as int)
                && self.clause_learnt(c as int)),
    {
        let mut r: Vec<usize> = Vec::new();
        let mut i = self.num_original_clauses;
        let n = self.clauses.len();
        while i < n
            invariant
                self.inv(),
                n == self.clauses@.len(),
                forall|a: int, b: int| 0 <= a < b < r@.len() ==> #[trigger] r@[a] < #[trigger] r@[b],
                forall|k: int| 0 <= k < r@.len() ==> (#[trigger] r@[k]) < i,
                i <= n || (i == self.num_original_clauses && r@.len() == 0),
                self.num_original_clauses <= i,
                forall|c: usize| #[trigger] r@.contains(c) <==> (self.num_original_clauses <= c < i && self.live(c as int)
                    && self.clauses@[c as int].learnt),
            decreases n - i,
        {
            let ghost r0 = r@;
            if self.clauses[i].learnt && !self.clauses[i].lits.is_empty() {
                r.push(i);
                proof {
                    assert(self.live(i as int)) by {
                        assert(self.inv_clauses());
                        assert(clause_wf(self.clauses@[i as int].lits@, self.nv()));
                    }
                }
            } else {
                proof {
                    assert(!r@.contains(i)) by {
                        if r@.contains(i) {
                            let k = choose|k: int| 0 <= k < r@.len() && r@[k] == i;
                            assert(r0[k] < i);
                        }
                    }
                }
            }
            proof {
                assert forall|c: usize| #[trigger] r@.contains(c) <==> (self.num_original_clauses <= c < i + 1
                    && self.live(c as int) && self.clauses@[c as int].learnt) by {
                    if r@.contains(c) && c != i {
                        let k = choose|k: int| 0 <= k < r@.len() && r@[k] == c;
                        assert(k < r0.len());
                        assert(r0[k] == c);
                        assert(r0.contains(c));
                    }
                    if c < i && r0.contains(c) {
                        let k = choose|k: int| 0 <= k < r0.len() && r0[k] == c;
                        assert(r@[k] == c);
                    }
                    if c == i && self.live(c as int) && self.clauses@[c as int].learnt {
                        assert(r@[r@.len() - 1] == c);
                    }
                }
            }
            i = i + 1;
        }
        r
    }

    /// Deletes learnt clauses: of the first half of `sorted` (meant to be
    /// the learnt clause indices, least active first), each clause that is
    /// `deletable` is removed.  Other entries are passed over.
    pub fn reduce_db(&mut self, sorted: &Vec<usize>)
        requires
            old(self).inv(),
            old(self).inv_watch(),
            old(self).inv_sound(),
        ensures
            final(self).refuted_ok() == old(self).refuted_ok(),
            final(self).inv(),
            final(self).inv_watch(),
            final(self).inv_sound(),
            final(self).formula() == old(self).formula(),
            final(self).dropped() == old(self).dropped(),
            final(self).heap_ready() == old(self).heap_ready(),
            final(self).settled() == old(self).settled(),
            final(self).same_but_clauses(*old(self)),
            final(self).num_clauses() == old(self).num_clauses(),
            forall|c: int| 0 <= c < old(self).num_clauses() ==> {
                let gone = old(self).deletable(c) && sorted@.subrange(0, (sorted@.len() / 2) as int).contains(c as usize);
                &&& #[trigger] final(self).clause_lits(c) == if gone {
                    Seq::<Lit>::empty()
                } else {
                    old(self).clause_lits(c)
                }
                &&& final(self).clause_learnt(c) == (old(self).clause_learnt(c) && !gone)
                &&& final(self).clause_lbd(c) == old(self).clause_lbd(c)
            },
            old(self).reduced_set(sorted@).finite(),
            old(self).reduced_set(sorted@).len() <= sorted@.len() / 2,
    {
        let limit = sorted.len() / 2;
        let mut idx: usize = 0;
        while idx < limit
            invariant
                self.refuted == old(self).refuted,
                limit == sorted@.len() / 2,
                idx <= limit,
                self.inv(),
                self.inv_watch(),
                self.inv_sound(),
                self.same_but_clauses(*old(self)),
                self.clauses@.len() == old(self).clauses@.len(),
                forall|c: int| 0 <= c < old(self).clauses@.len() ==> {
                    let gone = old(self).deletable(c) && sorted@.subrange(0, idx as int).contains(c as usize);
                    &&& #[trigger] self.clauses@[c] == if gone {
                        Clause { lits: self.clauses@[c].lits, learnt: false, lbd: old(self).clauses@[c].lbd }
                    } else {
                        old(self).clauses@[c]
                    }
                    &&& gone ==> self.clauses@[c].lits@.len() == 0
                },
            decreases limit - idx,
        {
            let cr = sorted[idx];
            let ghost s0 = *self;
            let ghost pre = sorted@.subrange(0, idx as int);
            let ghost post = sorted@.subrange(0, idx + 1);
            proof {
                assert(post =~= pre.push(cr));
            }
            if cr >= self.num_original_clauses && cr < self.clauses.len() && self.clauses[cr].lits.len() >= 2
                && self.clauses[cr].learnt && self.clauses[cr].lbd > 2 && !self.is_clause_reason(cr) {
                proof {
                    assert(self.clauses@[cr as int] == old(self).clauses@[cr as int]);
                    self.lemma_reason_same(*old(self), cr as int);
                    assert(old(self).deletable(cr as int));
                    assert(post[idx as int] == cr);
                    assert(post.contains(cr));
                }
                self.remove_clause(cr);
                proof {
                    assert forall|c: int| 0 <= c < old(self).clauses@.len() implies {
                        let gone = old(self).deletable(c) && post.contains(c as usize);
                        &&& #[trigger] self.clauses@[c] == if gone {
                            Clause { lits: self.clauses@[c].lits, learnt: false, lbd: old(self).clauses@[c].lbd }
                        } else {
                            old(self).clauses@[c]
                        }
                        &&& gone ==> self.clauses@[c].lits@.len() == 0
                    } by {
                        if c != cr {
                            assert(self.clauses@[c] == s0.clauses@[c]);
                            assert(post.contains(c as usize) == pre.contains(c as usize));
                        } else {
                            assert(self.clauses@[c].learnt == false);
                            assert(self.clauses@[c].lbd == old(self).clauses@[c].lbd);
                            assert(self.clauses@[c].lits@.len() == 0);
                        }
                    }
                }
            } else {
                proof {
                    assert forall|c: int| 0 <= c < old(self).clauses@.len() implies {
                        let gone = old(self).deletable(c) && post.contains(c as usize);
                        &&& #[trigger] self.clauses@[c] == if gone {
                            Clause { lits: self.clauses@[c].lits, learnt: false, lbd: old(self).clauses@[c].lbd }
                        } else {
                            old(self).clauses@[c]
                        }
                        &&& gone ==> self.clauses@[c].lits@.len() == 0
                    } by {
                        if c != cr {
                            assert(post.contains(c as usize) == pre.contains(c as usize));
                        } else if old(self).deletable(c) && !pre.contains(c as usize) {
                            assert(self.clauses@[c] == old(self).clauses@[c]);
                            self.lemma_reason_same(*old(self), c);
                            assert(self.deletable(c));
                            assert(false);
                        }
                    }
                }
            }
            idx = idx + 1;
        }
        proof {
            old(self).lemma_reduced_at_most_half(sorted@);
        }
    }

    /// The clauses that `reduce_db` removes given the order `sorted`: those
    /// `deletable` among the first half of `sorted`.
    pub open spec fn reduced_set(&self, sorted: Seq<usize>) -> Set<usize> {
        Set::new(
            |c: usize|
                (c as int) < self.num_clauses() && self.deletable(c as int) && sorted.subrange(
                    0,
                    (sorted.len() / 2) as int,
                ).contains(c),
        )
    }

    /// At most half as many clauses are removed as `sorted` lists.
    proof fn lemma_reduced_at_most_half(&self, sorted: Seq<usize>)
        ensures
            self.reduced_set(sorted).finite(),
            self.reduced_set(sorted).len() <= sorted.len() / 2,
    {
        let half = sorted.subrange(0, (sorted.len() / 2) as int);
        assert(self.reduced_set(sorted).subset_of(half.to_set()));
        half.lemma_cardinality_of_set();
        vstd::set_lib::lemma_len_subset(self.reduced_set(sorted), half.to_set());
    }

    /// Whether an unchanged clause is some variable's reason depends only on
    /// the assignment, which `same_but_clauses` keeps.
    proof fn lemma_reason_same(&self, pre: Solver, c: int)
        requires
            self.same_but_clauses(pre),
            0 <= c < self.clauses@.len(),
            0 <= c < pre.clauses@.len(),
            self.clauses@[c] == pre.clauses@[c],
        ensures
            self.is_reason(c) == pre.is_reason(c),
    {
        if self.is_reason(c) {
            let k = choose|k: int|
                0 <= k < self.clauses@[c].lits@.len() && self.assigned(var_of(#[trigger] self.clauses@[c].lits@[k] as int))
                    && self.reason@[var_of(self.clauses@[c].lits@[k] as int)] == c;
            assert(pre.clauses@[c].lits@[k] == self.clauses@[c].lits@[k]);
        }
        if pre.is_reason(c) {
            let k = choose|k: int|
                0 <= k < pre.clauses@[c].lits@.len() && pre.assigned(var_of(#[trigger] pre.clauses@[c].lits@[k] as int))
                    && pre.reason@[var_of(pre.clauses@[c].lits@[k] as int)] == c;
            assert(self.clauses@[c].lits@[k] == pre.clauses@[c].lits@[k]);
        }
    }
}

// ---------------------------------------------------------------------------
// Activities and queries
// ---------------------------------------------------------------------------

impl Solver {
    /// Declares the clauses added so far the original ones: later clauses
    /// are learnt, and only those are ever deleted.
    pub fn mark_original_clauses(&mut self)
        requires
            old(self).inv(),
            old(self).inv_watch(),
            old(self).inv_sound(),
        ensures
            final(self).refuted_ok() == old(self).refuted_ok(),
            final(self).inv(),
            final(self).inv_watch(),
            final(self).inv_sound(),
            final(self).formula() == old(self).formula(),
            final(self).dropped() == old(self).dropped(),
            final(self).heap_ready() == old(self).heap_ready(),
            final(self).settled() == old(self).settled(),
            final(self).original_clauses() == old(self).num_clauses(),
            final(self).same_but_originals(*old(self)),
    {
        self.num_original_clauses = self.clauses.len();
        proof {
            self.lemma_watch_frame(*old(self));
            self.lemma_sound_same(*old(self));
            self.lemma_trail_frame(*old(self), true);
            self.lemma_watches_ok_frame(*old(self), self.wview());
            assert(self.wview() == old(self).wview());
        }
    }

    /// `self` differs from `other` at most in how many clauses count as
    /// original.
    pub closed spec fn same_but_originals(&self, other: Solver) -> bool {
        &&& self.num_vars == other.num_vars
        &&& self.clauses@ == other.clauses@
        &&& self.watches@ == other.watches@
        &&& self.assigns@ == other.assigns@
        &&& self.level@ == other.level@
        &&& self.reason@ == other.reason@
        &&& self.trail@ == other.trail@
        &&& self.trail_lim@ == other.trail_lim@
        &&& self.qhead == other.qhead
        &&& self.heap == other.heap
        &&& self.heap_filled == other.heap_filled
        &&& self.decisions == other.decisions
        &&& self.propagations == other.propagations
        &&& self.seen@ == other.seen@
        &&& self.settled == other.settled
        &&& self.formula == other.formula
        &&& self.dropped == other.dropped
    }

    /// Sets the activity key of variable `v`, keeping the heap ordered.
    pub fn set_var_activity(&mut self, v: Var, key: u64)
        requires
            old(self).inv(),
            (v as int) < old(self).nv(),
            old(self).inv_watch(),
            old(self).inv_sound(),
        ensures
            final(self).refuted_ok() == old(self).refuted_ok(),
            final(self).inv(),
            final(self).inv_watch(),
            final(self).inv_sound(),
            final(self).formula() == old(self).formula(),
            final(self).dropped() == old(self).dropped(),
            final(self).heap_ready() == old(self).heap_ready(),
            final(self).settled() == old(self).settled(),
            final(self).same_but_heap(*old(self)),
            final(self).heap_view().keys() == old(self).heap_view().keys().update(v as int, key),
            final(self).heap_view().contents() == old(self).heap_view().contents(),
    {
        self.heap.set_activity(v, key);
        proof {
            self.lemma_heap_frame(*old(self));
            self.lemma_watch_frame(*old(self));
            self.lemma_sound_same(*old(self));
        }
    }

    /// Replaces every activity key at once (after rescaling); the heap keeps
    /// its arrangement when that is still ordered by the new keys.
    pub fn set_all_activities(&mut self, keys: Vec<u64>)
        requires
            old(self).inv(),
            keys@.len() == old(self).nv(),
            old(self).inv_watch(),
            old(self).inv_sound(),
        ensures
            final(self).refuted_ok() == old(self).refuted_ok(),
            final(self).inv(),
            final(self).inv_watch(),
            final(self).inv_sound(),
            final(self).formula() == old(self).formula(),
            final(self).dropped() == old(self).dropped(),
            final(self).heap_ready() == old(self).heap_ready(),
            final(self).settled() == old(self).settled(),
            final(self).same_but_heap(*old(self)),
            final(self).heap_view().keys() == keys@,
            final(self).heap_view().contents() == old(self).heap_view().contents(),
    {
        proof {
            self.heap.lemma_keys_len();
        }
        self.heap.rekey(keys);
        proof {
            self.lemma_heap_frame(*old(self));
            self.lemma_watch_frame(*old(self));
            self.lemma_sound_same(*old(self));
        }
    }

    /// The activity key of variable `v`.
    pub fn var_activity(&self, v: Var) -> (k: u64)
        requires
            self.inv(),
            (v as int) < self.nv(),
        ensures
            k == self.heap_view().keys()[v as int],
    {
        self.heap.activity(v)
    }

    /// Whether clause `cr` can be analysed as a conflict now: above level 0,
    /// all its literals false, one of them at the current level.
    pub fn is_conflict(&self, cr: usize) -> (r: bool)
        requires
            self.inv(),
        ensures
            r == (self.dlevel() > 0 && self.conflicting(cr as int) && self.has_lit_at_top_level(cr as int)),
    {
        if self.trail_lim.len() == 0 || cr >= self.clauses.len() || self.clauses[cr].lits.len() < 2 {
            return false;
        }
        proof {
            assert(clause_wf(self.clauses@[cr as int].lits@, self.nv()));
            self.lemma_dlevel_bound();
        }
        let d = self.trail_lim.len() as u32;
        let n = self.clauses[cr].lits.len();
        let mut top = false;
        let mut k: usize = 0;
        while k < n
            invariant
                self.inv(),
                cr < self.clauses@.len(),
                n == self.clauses@[cr as int].lits@.len(),
                clause_wf(self.clauses@[cr as int].lits@, self.nv()),
                d == self.trail_lim@.len(),
                k <= n,
                forall|i: int| 0 <= i < k ==> #[trigger] self.is_false(self.clauses@[cr as int].lits@[i] as int),
                top <==> exists|i: int| 0 <= i < k && #[trigger] self.level@[var_of(self.clauses@[cr as int].lits@[i] as int)] == d,
            decreases n - k,
        {
            let l = self.clauses[cr].lits[k];
            if eval_lit(&self.assigns, l) != LBOOL_FALSE {
                proof {
                    assert(!self.is_false(self.clauses@[cr as int].lits@[k as int] as int));
                }
                return false;
            }
            if self.level[lit_var(l) as usize] == d {
                top = true;
            }
            proof {
                let lits = self.clauses@[cr as int].lits@;
                if top && !(exists|i: int| 0 <= i < k && #[trigger] self.level@[var_of(lits[i] as int)] == d) {
                    assert(self.level@[var_of(lits[k as int] as int)] == d);
                }
            }
            k = k + 1;
        }
        top
    }

    /// Whether every trail literal has been propagated.
    pub fn fully_propagated(&self) -> (r: bool)
        requires
            self.inv(),
        ensures
            r == (self.qhead_view() == self.trail_view().len()),
    {
        self.qhead == self.trail.len()
    }

    pub fn num_vars(&self) -> (r: u32)
        ensures
            r == self.nv(),
    {
        self.num_vars
    }

    pub fn clause_count(&self) -> (r: usize)
        ensures
            r == self.num_clauses(),
    {
        self.clauses.len()
    }

    pub fn num_original_clauses(&self) -> (r: usize)
        ensures
            r == self.original_clauses(),
    {
        self.num_original_clauses
    }

    pub fn trail_len(&self) -> (r: usize)
        ensures
            r == self.trail_view().len(),
    {
        self.trail.len()
    }

    /// Whether clause `cr` is a learnt clause.
    pub fn clause_is_learnt(&self, cr: usize) -> (r: bool)
        requires
            (cr as int) < self.num_clauses(),
        ensures
            r == self.clause_learnt(cr as int),
    {
        self.clauses[cr].learnt
    }

    /// The value of variable `v`: `LBOOL_TRUE`, `LBOOL_FALSE` or `LBOOL_UNDEF`.
    pub fn var_value(&self, v: Var) -> (r: u8)
        requires
            self.inv(),
            (v as int) < self.nv(),
        ensures
            r == self.assigns_view()[v as int],
    {
        self.assigns[v as usize]
    }

    /// The clause that implied variable `v`, or `REASON_UNDEF` for a
    /// decision, a level-0 unit or an unassigned variable.
    pub fn var_reason(&self, v: Var) -> (r: u32)
        requires
            self.inv(),
            (v as int) < self.nv(),
        ensures
            r == self.reason_of(v as int),
    {
        self.reason[v as usize]
    }

    /// The decision level at which variable `v` was assigned.
    pub fn var_level(&self, v: Var) -> (r: u32)
        requires
            self.inv(),
            (v as int) < self.nv(),
        ensures
            r == self.level_of(v as int),
    {
        self.level[v as usize]
    }

    /// The literals of clause `cr` (empty once deleted).
    pub fn clause_literals(&self, cr: usize) -> (r: &Vec<Lit>)
        requires
            (cr as int) < self.num_clauses(),
        ensures
            r@ == self.clause_lits(cr as int),
    {
        &self.clauses[cr].lits
    }

    /// The assigned literals, in the order they were assigned.
    pub fn trail_literals(&self) -> (r: &Vec<Lit>)
        ensures
            r@ == self.trail_view(),
    {
        &self.trail
    }

    /// Whether some literal of clause `cr` is true.
    pub fn clause_satisfied(&self, cr: usize) -> (r: bool)
        requires
            self.inv(),
            (cr as int) < self.num_clauses(),
        ensures
            r == self.satisfied(cr as int),
    {
        let n = self.clauses[cr].lits.len();
        let mut k: usize = 0;
        while k < n
            invariant
                self.inv(),
                (cr as int) < self.clauses@.len(),
                n == self.clauses@[cr as int].lits@.len(),
                k <= n,
                forall|i: int| 0 <= i < k ==> !#[trigger] self.is_true(self.clauses@[cr as int].lits@[i] as int),
            decreases n - k,
        {
            proof {
                assert(clause_wf(self.clauses@[cr as int].lits@, self.nv()));
            }
            if eval_lit(&self.assigns, self.clauses[cr].lits[k]) == LBOOL_TRUE {
                proof {
                    assert(self.is_true(self.clause_lits(cr as int)[k as int] as int));
                }
                return true;
            }
            k = k + 1;
        }
        false
    }

    /// The number of decisions made.
    pub fn decisions(&self) -> (r: u64)
        ensures
            r == self.decisions_made(),
    {
        self.decisions
    }

    /// The number of trail literals propagated.
    pub fn propagations(&self) -> (r: u64)
        ensures
            r == self.propagations_done(),
    {
        self.propagations
    }

    /// The number of trail literals propagated (counted modulo 2^64).
    pub closed spec fn propagations_done(&self) -> u64 {
        self.propagations
    }
}

// ---------------------------------------------------------------------------
// Soundness with respect to the input clauses
// ---------------------------------------------------------------------------

impl Solver {
    /// A conflict at decision level 0 shows that the input clauses have no
    /// model.
    pub proof fn lemma_unsat(&self, cr: int)
        requires
            self.inv(),
            self.inv_sound(),
            self.dlevel() == 0,
            self.conflicting(cr),
        ensures
            unsatisfiable(self.formula(), self.nv()),
    {
        let f = self.formula@;
        let nv = self.nv();
        let l = self.clauses@[cr].lits@;
        assert(clause_wf(l, nv));
        assert forall|m: Seq<bool>| !#[trigger] is_model(m, f, nv) by {
            if is_model(m, f, nv) {
                assert(implies_clause(f, nv, l));
                assert(clause_holds(m, l));
                let k = choose|k: int| 0 <= k < l.len() && #[trigger] lit_holds(m, l[k]);
                assert(self.is_false(l[k] as int));
                self.lemma_false_on_trail(l[k] as int);
                let j = choose|j: int| 0 <= j < self.trail@.len() && self.trail@[j] as int == neg_of(l[k] as int);
                let t = self.trail@[j];
                assert(self.at_level(j, self.level@[var_of(t as int)] as int));
                assert(self.level@[var_of(t as int)] == 0);
                assert(implies_clause(f, nv, seq![t]));
                assert(clause_holds(m, seq![t]));
                assert(seq![t][0] == t);
                assert(lit_holds(m, t));
                lemma_holds_neg(m, l[k]);
            }
        }
    }
}

impl Solver {
    /// Soundness depends only on the formula, the clauses, the trail and the
    /// levels.
    proof fn lemma_sound_same(&self, pre: Solver)
        requires
            pre.inv_sound(),
            self.formula == pre.formula,
            self.dropped == pre.dropped,
            self.num_vars == pre.num_vars,
            self.clauses@ == pre.clauses@,
            self.trail@ == pre.trail@,
            self.level@ == pre.level@,
        ensures
            self.inv_sound(),
    {
        assert forall|c: int| #[trigger] self.live(c) implies implies_clause(self.formula@, self.nv(), self.clauses@[c].lits@) by {
            assert(pre.live(c));
        }
        self.lemma_held_same(pre);
    }

    /// If a clause follows from the formula and, at level 0, all its
    /// literals but the first are false, its first literal follows too.
    proof fn lemma_unit_implied(&self, c: Seq<Lit>)
        requires
            self.inv_sizes(),
            self.inv_trail(),
            self.inv_sound(),
            self.trail_lim@.len() == 0,
            c.len() >= 1,
            implies_clause(self.formula@, self.nv(), c),
            forall|k: int| 0 <= k < c.len() ==> (#[trigger] c[k]) < 2 * self.nv(),
            forall|k: int| 1 <= k < c.len() ==> #[trigger] self.is_false(c[k] as int),
        ensures
            implies_clause(self.formula@, self.nv(), seq![c[0]]),
    {
        let f = self.formula@;
        let nv = self.nv();
        assert forall|m: Seq<bool>| #[trigger] is_model(m, f, nv) implies clause_holds(m, seq![c[0]]) by {
            assert(clause_holds(m, c));
            let k = choose|k: int| 0 <= k < c.len() && #[trigger] lit_holds(m, c[k]);
            if k > 0 {
                self.lemma_false_on_trail(c[k] as int);
                let j = choose|j: int| 0 <= j < self.trail@.len() && self.trail@[j] as int == neg_of(c[k] as int);
                let t = self.trail@[j];
                assert(self.at_level(j, self.level@[var_of(t as int)] as int));
                assert(implies_clause(f, nv, seq![t]));
                assert(clause_holds(m, seq![t]));
                assert(seq![t][0] == t);
                lemma_holds_neg(m, c[k]);
                assert(false);
            }
            assert(seq![c[0]][0] == c[0]);
        }
    }
}

impl Solver {
    /// Adding an input clause to the formula keeps soundness.
    proof fn lemma_sound_more(&self, pre: Solver, extra: Seq<Lit>)
        requires
            pre.inv_sound(),
            self.formula@ == pre.formula@.push(extra),
            self.dropped == pre.dropped,
            self.num_vars == pre.num_vars,
            self.clauses@ == pre.clauses@,
            self.trail@ == pre.trail@,
            self.level@ == pre.level@,
        ensures
            self.sound_core(),
            self.inputs_held(),
            self.dropped@.len() + 1 == self.formula@.len(),
    {
        assert forall|i: int| 0 <= i < pre.formula@.len() implies #[trigger] self.formula@[i] == pre.formula@[i] by {}
        self.lemma_held_frame(pre);
        assert forall|c: int| #[trigger] self.live(c) implies implies_clause(self.formula@, self.nv(), self.clauses@[c].lits@) by {
            assert(pre.live(c));
            lemma_implies_more(pre.formula@, pre.nv(), pre.clauses@[c].lits@, extra);
        }
        assert forall|i: int|
            0 <= i < self.trail@.len() && self.level@[var_of(self.trail@[i] as int)] == 0 implies implies_clause(
            self.formula@,
            self.nv(),
            seq![#[trigger] self.trail@[i]],
        ) by {
            lemma_implies_more(pre.formula@, pre.nv(), seq![pre.trail@[i]], extra);
        }
    }

    /// At level 0, the literals of the last input clause that are not false
    /// form a clause that follows from the formula.
    proof fn lemma_input_implied(&self, input: Seq<Lit>, kept: Seq<Lit>)
        requires
            self.inv(),
            self.sound_core(),
            self.trail_lim@.len() == 0,
            self.formula@.len() > 0,
            self.formula@.last() == input,
            kept.to_set() == input.to_set().filter(self.nonfalse()),
            forall|k: int| 0 <= k < kept.len() ==> (#[trigger] kept[k]) < 2 * self.nv(),
            tautology(input) || in_range(input, self.nv()),
            !tautology(input),
        ensures
            implies_clause(self.formula@, self.nv(), kept),
    {
        let f = self.formula@;
        let nv = self.nv();
        assert forall|m: Seq<bool>| #[trigger] is_model(m, f, nv) implies clause_holds(m, kept) by {
            assert(clause_holds(m, f[f.len() - 1]));
            let k = choose|k: int| 0 <= k < input.len() && #[trigger] lit_holds(m, input[k]);
            let x = input[k];
            assert(input.to_set().contains(x));
            if self.is_false(x as int) {
                self.lemma_false_on_trail(x as int);
                let j = choose|j: int| 0 <= j < self.trail@.len() && self.trail@[j] as int == neg_of(x as int);
                let t = self.trail@[j];
                assert(self.at_level(j, self.level@[var_of(t as int)] as int));
                assert(implies_clause(f, nv, seq![t]));
                assert(clause_holds(m, seq![t]));
                assert(seq![t][0] == t);
                lemma_holds_neg(m, x);
                assert(false);
            }
            assert((self.nonfalse())(x));
            assert(kept.to_set().contains(x));
            assert(kept.contains(x));
            let k2 = choose|k2: int| 0 <= k2 < kept.len() && kept[k2] == x;
            assert(lit_holds(m, kept[k2]));
        }
    }

    /// Storing a clause that follows from the formula keeps soundness.
    proof fn lemma_add_sound(&self, s0: Solver, cr: int)
        requires
            s0.sound_core(),
            s0.inputs_held(),
            cr == s0.clauses@.len(),
            self.clauses@.len() == cr + 1,
            forall|c: int| 0 <= c < cr ==> #[trigger] self.clauses@[c] == s0.clauses@[c],
            implies_clause(s0.formula@, s0.nv(), self.clauses@[cr].lits@),
            self.formula == s0.formula,
            self.dropped == s0.dropped,
            self.num_vars == s0.num_vars,
            self.trail@ == s0.trail@,
            self.level@ == s0.level@,
        ensures
            self.sound_core(),
            self.inputs_held(),
    {
        assert forall|c: int| #[trigger] self.live(c) implies implies_clause(self.formula@, self.nv(), self.clauses@[c].lits@) by {
            if c < cr {
                assert(s0.live(c));
            }
        }
        assert forall|c: int| #[trigger] s0.live(c) && !s0.clauses@[c].learnt implies self.live(c)
            && !self.clauses@[c].learnt && self.clauses@[c].lits@.to_set() == s0.clauses@[c].lits@.to_set() by {
            assert(self.clauses@[c] == s0.clauses@[c]);
        }
        self.lemma_held_frame(s0);
    }
}

impl Solver {
    /// Exchanging two literals of a clause keeps soundness.
    proof fn lemma_swap_sound(&self, post: Solver, cr: int, a: int, b: int)
        requires
            self.inv_sound(),
            0 <= cr < self.clauses@.len(),
            0 <= a < self.clauses@[cr].lits@.len(),
            0 <= b < self.clauses@[cr].lits@.len(),
            post.clauses@.len() == self.clauses@.len(),
            forall|c: int| 0 <= c < self.clauses@.len() && c != cr ==> #[trigger] post.clauses@[c] == self.clauses@[c],
            post.clauses@[cr].lits@ == self.clauses@[cr].lits@.update(a, self.clauses@[cr].lits@[b]).update(
                b,
                self.clauses@[cr].lits@[a],
            ),
            post.clauses@[cr].learnt == self.clauses@[cr].learnt,
            post.formula == self.formula,
            post.dropped == self.dropped,
            post.num_vars == self.num_vars,
            post.trail@ == self.trail@,
            post.level@ == self.level@,
        ensures
            post.inv_sound(),
    {
        let l = self.clauses@[cr].lits@;
        lemma_swap_contains(l, a, b);
        assert forall|c: int| #[trigger] post.live(c) implies implies_clause(post.formula@, post.nv(), post.clauses@[c].lits@) by {
            assert(self.live(c));
            if c == cr {
                lemma_implies_same_lits(self.formula@, self.nv(), l, post.clauses@[cr].lits@);
            }
        }
        assert(post.clauses@[cr].lits@.to_set() =~= l.to_set());
        assert forall|c: int| #[trigger] self.live(c) && !self.clauses@[c].learnt implies post.live(c)
            && !post.clauses@[c].learnt && post.clauses@[c].lits@.to_set() == self.clauses@[c].lits@.to_set() by {
            if c != cr {
                assert(post.clauses@[c] == self.clauses@[c]);
            }
        }
        post.lemma_held_frame(*self);
    }
}

impl Solver {
    /// The input clauses stay held when the level-0 part of the trail and
    /// the stored input clauses (as sets of literals) are kept.
    proof fn lemma_held_frame(&self, pre: Solver)
        requires
            pre.inputs_held(),
            self.dropped == pre.dropped,
            pre.formula@.len() <= self.formula@.len(),
            forall|i: int| 0 <= i < pre.formula@.len() ==> #[trigger] self.formula@[i] == pre.formula@[i],
            forall|j: int|
                #![trigger pre.trail@[j]]
                0 <= j < pre.trail@.len() && pre.level@[var_of(pre.trail@[j] as int)] == 0 ==> j < self.trail@.len()
                    && self.trail@[j] == pre.trail@[j] && self.level@[var_of(pre.trail@[j] as int)] == 0,
            forall|cr: int|
                #[trigger] pre.live(cr) && !pre.clauses@[cr].learnt ==> self.live(cr) && !self.clauses@[cr].learnt
                    && self.clauses@[cr].lits@.to_set() == pre.clauses@[cr].lits@.to_set(),
        ensures
            self.inputs_held(),
    {
        assert forall|i: int| 0 <= i < self.dropped@.len() implies if #[trigger] self.dropped@[i] {
            self.root_false(self.formula@[i])
        } else {
            self.held_input(self.formula@[i])
        } by {
            let c = self.formula@[i];
            assert(c == pre.formula@[i]);
            if self.dropped@[i] {
                assert(pre.root_false(c));
                assert forall|k: int| 0 <= k < c.len() implies #[trigger] self.false_at_root(c[k]) by {
                    assert(pre.false_at_root(c[k]));
                    let j = choose|j: int|
                        0 <= j < pre.trail@.len() && pre.level@[var_of(pre.trail@[j] as int)] == 0 && #[trigger] pre.trail@[j]
                            as int == neg_of(c[k] as int);
                    assert(self.trail@[j] == pre.trail@[j]);
                }
            } else {
                assert(pre.held_input(c));
                if tautology(c) {
                } else if exists|j: int|
                    0 <= j < pre.trail@.len() && pre.level@[var_of(pre.trail@[j] as int)] == 0 && c.contains(
                        #[trigger] pre.trail@[j],
                    ) {
                    let j = choose|j: int|
                        0 <= j < pre.trail@.len() && pre.level@[var_of(pre.trail@[j] as int)] == 0 && c.contains(
                            #[trigger] pre.trail@[j],
                        );
                    assert(self.trail@[j] == pre.trail@[j]);
                } else {
                    let cr = choose|cr: int|
                        #[trigger] pre.live(cr) && !pre.clauses@[cr].learnt && pre.clauses@[cr].lits@.to_set().subset_of(
                            c.to_set(),
                        );
                    assert(self.live(cr));
                }
            }
        }
    }

    /// Whether an input clause is held depends only on the trail, the levels
    /// and the stored clauses.
    proof fn lemma_held_input_same(&self, pre: Solver, c: Seq<Lit>)
        requires
            pre.held_input(c),
            self.trail@ == pre.trail@,
            self.level@ == pre.level@,
            self.clauses@ == pre.clauses@,
        ensures
            self.held_input(c),
    {
        if tautology(c) {
        } else if exists|j: int|
            0 <= j < pre.trail@.len() && pre.level@[var_of(pre.trail@[j] as int)] == 0 && c.contains(
                #[trigger] pre.trail@[j],
            ) {
            let j = choose|j: int|
                0 <= j < pre.trail@.len() && pre.level@[var_of(pre.trail@[j] as int)] == 0 && c.contains(
                    #[trigger] pre.trail@[j],
                );
            assert(self.trail@[j] == pre.trail@[j]);
        } else {
            let cr = choose|cr: int|
                #[trigger] pre.live(cr) && !pre.clauses@[cr].learnt && pre.clauses@[cr].lits@.to_set().subset_of(
                    c.to_set(),
                );
            assert(self.live(cr));
        }
    }

    /// With the level-0 trail, the stored clauses and the formula equal,
    /// the input clauses stay held.
    proof fn lemma_held_same(&self, pre: Solver)
        requires
            pre.inputs_held(),
            self.formula == pre.formula,
            self.dropped == pre.dropped,
            self.trail@ == pre.trail@,
            self.level@ == pre.level@,
            self.clauses@ == pre.clauses@,
        ensures
            self.inputs_held(),
    {
        self.lemma_held_frame(pre);
    }
}

impl Solver {
    /// Classifying the newest input clause, as held or as dropped with every
    /// literal false at level 0, restores soundness.
    proof fn lemma_held_push(&self, pre: Solver, flag: bool)
        requires
            pre.sound_core(),
            pre.inputs_held(),
            pre.formula@.len() > 0,
            pre.dropped@.len() == pre.formula@.len() - 1,
            flag ==> pre.root_false(pre.formula@.last()),
            !flag ==> pre.held_input(pre.formula@.last()),
            self.dropped@ == pre.dropped@.push(flag),
            self.formula == pre.formula,
            self.num_vars == pre.num_vars,
            self.clauses@ == pre.clauses@,
            self.trail@ == pre.trail@,
            self.level@ == pre.level@,
        ensures
            self.inv_sound(),
    {
        let n = pre.formula@.len();
        assert forall|c: int| #[trigger] self.live(c) implies implies_clause(self.formula@, self.nv(), self.clauses@[c].lits@) by {
            assert(pre.live(c));
        }
        assert forall|i: int| 0 <= i < self.dropped@.len() implies if #[trigger] self.dropped@[i] {
            self.root_false(self.formula@[i])
        } else {
            self.held_input(self.formula@[i])
        } by {
            if i < n - 1 {
                assert(self.dropped@[i] == pre.dropped@[i]);
            }
            if self.dropped@[i] {
                let c = self.formula@[i];
                assert(pre.root_false(c));
                assert forall|k: int| 0 <= k < c.len() implies #[trigger] self.false_at_root(c[k]) by {
                    assert(pre.false_at_root(c[k]));
                    let j = choose|j: int|
                        0 <= j < pre.trail@.len() && pre.level@[var_of(pre.trail@[j] as int)] == 0 && #[trigger] pre.trail@[j]
                            as int == neg_of(c[k] as int);
                    assert(self.trail@[j] == pre.trail@[j]);
                }
            } else {
                assert(pre.held_input(self.formula@[i]));
                self.lemma_held_input_same(pre, self.formula@[i]);
            }
        }
    }

    /// At level 0, a clause whose literals are all false has them all false
    /// at level 0.
    proof fn lemma_root_false(&self, c: Seq<Lit>)
        requires
            self.inv_sizes(),
            self.inv_trail(),
            self.trail_lim@.len() == 0,
            forall|k: int| 0 <= k < c.len() ==> (#[trigger] c[k] as int) < 2 * self.nv() && self.is_false(c[k] as int),
        ensures
            self.root_false(c),
    {
        assert forall|k: int| 0 <= k < c.len() implies #[trigger] self.false_at_root(c[k]) by {
            self.lemma_false_on_trail(c[k] as int);
            let j = choose|j: int| 0 <= j < self.trail@.len() && self.trail@[j] as int == neg_of(c[k] as int);
            assert(self.at_level(j, self.level@[var_of(self.trail@[j] as int)] as int));
        }
    }

    /// An input clause with a literal true at level 0 is held.
    proof fn lemma_true_held(&self, c: Seq<Lit>, k: int)
        requires
            self.inv_sizes(),
            self.inv_trail(),
            self.trail_lim@.len() == 0,
            0 <= k < c.len(),
            (c[k] as int) < 2 * self.nv(),
            self.is_true(c[k] as int),
        ensures
            self.held_input(c),
    {
        let l = c[k] as int;
        let v = var_of(l);
        assert(self.assigns@[v] != LBOOL_UNDEF);
        let j = choose|j: int| 0 <= j < self.trail@.len() && var_of(#[trigger] self.trail@[j] as int) == v;
        let t = self.trail@[j] as int;
        assert(self.is_true(t));
        assert((0u8 ^ 1u8) == 1u8) by (bit_vector);
        assert((1u8 ^ 1u8) == 0u8) by (bit_vector);
        assert(self.assigns@[v] <= 2);
        assert(is_pos(t) == is_pos(l));
        assert(t == l);
        assert(self.at_level(j, self.level@[v] as int));
        assert(self.level@[v] == 0);
        assert(c.contains(self.trail@[j]));
    }
}

impl Solver {
    /// The assignment as a valuation of the variables: true exactly where
    /// assigned true.
    pub closed spec fn model(&self) -> Seq<bool> {
        Seq::new(self.nv() as nat, |v: int| self.assigns@[v] == LBOOL_TRUE)
    }

    /// A true literal holds in the valuation.
    proof fn lemma_true_holds(&self, l: Lit)
        requires
            self.inv_sizes(),
            (l as int) < 2 * self.nv(),
            self.is_true(l as int),
        ensures
            lit_holds(self.model(), l),
    {
        let v = var_of(l as int);
        let a = self.assigns@[v];
        assert(a <= 2);
        assert((0u8 ^ 1u8) == 1u8) by (bit_vector);
        assert((1u8 ^ 1u8) == 0u8) by (bit_vector);
        assert((2u8 ^ 1u8) == 3u8) by (bit_vector);
        assert(self.model()[v] == (a == LBOOL_TRUE));
    }

    /// With every variable assigned and every stored clause satisfied, the
    /// valuation satisfies every input clause that was not dropped.
    proof fn lemma_input_model(&self)
        requires
            self.inv(),
            self.inv_sound(),
            forall|v: int| 0 <= v < self.nv() ==> #[trigger] self.assigned(v),
            forall|c: int| #[trigger] self.live(c) ==> self.satisfied(c),
        ensures
            self.dropped().len() == self.formula().len(),
            forall|i: int|
                0 <= i < self.formula().len() && !#[trigger] self.dropped()[i] ==> clause_holds(
                    self.model(),
                    self.formula()[i],
                ),
            forall|i: int, k: int|
                0 <= i < self.formula().len() && #[trigger] self.dropped()[i] && 0 <= k < self.formula()[i].len()
                    ==> self.is_false(#[trigger] self.formula()[i][k] as int) && self.level_of(
                    var_of(self.formula()[i][k] as int),
                ) == 0,
    {
        let m = self.model();
        assert forall|i: int, k: int|
            0 <= i < self.formula().len() && #[trigger] self.dropped()[i] && 0 <= k < self.formula()[i].len()
                implies self.is_false(#[trigger] self.formula()[i][k] as int) && self.level_of(
            var_of(self.formula()[i][k] as int),
        ) == 0 by {
            let c = self.formula@[i];
            assert(self.root_false(c));
            assert(self.false_at_root(c[k]));
            let j = choose|j: int|
                0 <= j < self.trail@.len() && self.level@[var_of(self.trail@[j] as int)] == 0 && #[trigger] self.trail@[j]
                    as int == neg_of(c[k] as int);
            let t = self.trail@[j] as int;
            assert(self.is_true(t));
            assert(t < 2 * self.nv());
            lemma_value_of_neg(self.assigns@, t);
            assert(neg_of(t) == c[k] as int);
            assert(var_of(t) == var_of(c[k] as int));
        }
        assert forall|i: int|
            0 <= i < self.formula().len() && !#[trigger] self.dropped()[i] implies clause_holds(m, self.formula()[i]) by {
            let c = self.formula@[i];
            assert(self.held_input(c));
            if tautology(c) {
                let (a, b) = choose|a: int, b: int| 0 <= a < c.len() && 0 <= b < c.len() && c[b] as int == neg_of(c[a] as int);
                assert(var_of(c[b] as int) == var_of(c[a] as int));
                assert(is_pos(c[b] as int) != is_pos(c[a] as int));
                if lit_holds(m, c[a]) {
                    assert(clause_holds(m, c));
                } else {
                    assert(lit_holds(m, c[b]));
                    assert(clause_holds(m, c));
                }
            } else if exists|j: int|
                0 <= j < self.trail@.len() && self.level@[var_of(self.trail@[j] as int)] == 0 && c.contains(
                    #[trigger] self.trail@[j],
                ) {
                let j = choose|j: int|
                    0 <= j < self.trail@.len() && self.level@[var_of(self.trail@[j] as int)] == 0 && c.contains(
                        #[trigger] self.trail@[j],
                    );
                let t = self.trail@[j];
                self.lemma_true_holds(t);
                let k = choose|k: int| 0 <= k < c.len() && c[k] == t;
                assert(lit_holds(m, c[k]));
            } else {
                let cr = choose|cr: int|
                    #[trigger] self.live(cr) && !self.clauses@[cr].learnt && self.clauses@[cr].lits@.to_set().subset_of(
                        c.to_set(),
                    );
                assert(self.satisfied(cr));
                let l = self.clause_lits(cr);
                let k = choose|k: int| 0 <= k < l.len() && #[trigger] self.is_true(l[k] as int);
                assert(clause_wf(l, self.nv()));
                self.lemma_true_holds(l[k]);
                assert(l.to_set().contains(l[k]));
                assert(c.to_set().contains(l[k]));
                let k2 = choose|k2: int| 0 <= k2 < c.len() && c[k2] == l[k];
                assert(lit_holds(m, c[k2]));
            }
        }
    }
}

// ---------------------------------------------------------------------------
// The search
// ---------------------------------------------------------------------------

/// The clauses of `cs` as sequences of literals.
pub open spec fn clause_views(cs: Seq<Vec<Lit>>) -> Seq<Seq<Lit>> {
    cs.map_values(|w: Vec<Lit>| w@)
}

/// What one round of the search found.
pub enum Step {
    /// Every variable is assigned and every clause of the database holds.
    Sat,
    /// A clause is false at decision level 0: the input clauses have no model.
    Unsat,
    /// A conflict above level 0, with its analysis; nothing was undone yet.
    Conflict(Analysis),
    /// Propagation reached a fixpoint and the variable was decided false.
    Decided(Var),
}

impl Solver {
    /// Adds the input clauses in order at level 0, propagating after each,
    /// and then records them as the original clauses.  Stops early, and
    /// answers false, at an empty clause or at a conflict: then the input has
    /// no model.
    pub fn load_clauses(&mut self, clauses: Vec<Vec<Lit>>) -> (ok: bool)
        requires
            old(self).inv(),
            old(self).inv_watch(),
            old(self).inv_sound(),
            old(self).settled(),
            old(self).dlevel() == 0,
            forall|i: int|
                0 <= i < clauses@.len() ==> tautology(#[trigger] clauses@[i]@) || in_range(clauses@[i]@, old(self).nv()),
            old(self).num_clauses() + clauses@.len() + 1 < REASON_UNDEF,
        ensures
            old(self).refuted_ok() ==> final(self).refuted_ok(),
            final(self).inv(),
            final(self).inv_watch(),
            final(self).inv_sound(),
            final(self).nv() == old(self).nv(),
            final(self).original_clauses() == final(self).num_clauses(),
            ok ==> final(self).formula() == old(self).formula() + clause_views(clauses@),
            ok ==> final(self).dropped() == old(self).dropped() + Seq::new(clauses@.len(), |i: int| false),
            ok && old(self).none_dropped() ==> final(self).none_dropped(),
            ok ==> final(self).settled() && final(self).dlevel() == 0,
            !ok ==> unsatisfiable(old(self).formula() + clause_views(clauses@), old(self).nv()),
    {
        let ghost all = old(self).formula() + clause_views(clauses@);
        let ghost nv = old(self).nv();
        let n = clauses.len();
        let mut i: usize = 0;
        proof {
            assert(clause_views(clauses@).subrange(0, 0) =~= Seq::<Seq<Lit>>::empty());
            assert(old(self).formula() + clause_views(clauses@).subrange(0, 0) =~= old(self).formula());
            assert(old(self).dropped() + Seq::new(0, |j: int| false) =~= old(self).dropped());
        }
        while i < n
            invariant
                old(self).refuted_ok() ==> self.refuted_ok(),
                n == clauses@.len(),
                i <= n,
                self.inv(),
                self.inv_watch(),
                self.inv_sound(),
                self.settled(),
                self.dlevel() == 0,
                self.nv() == nv,
                nv == old(self).nv(),
                all == old(self).formula() + clause_views(clauses@),
                self.formula() == old(self).formula() + clause_views(clauses@).subrange(0, i as int),
                self.dropped() == old(self).dropped() + Seq::new(i as nat, |j: int| false),
                self.num_clauses() <= old(self).num_clauses() + i,
                old(self).num_clauses() + clauses@.len() + 1 < REASON_UNDEF,
                forall|k: int|
                    0 <= k < clauses@.len() ==> tautology(#[trigger] clauses@[k]@) || in_range(clauses@[k]@, nv),
            decreases n - i,
        {
            let c = clauses[i].clone();
            proof {
                assert(c@ =~= clauses@[i as int]@);
                assert(clause_views(clauses@)[i as int] == c@);
            }
            if c.len() == 0 {
                proof {
                    lemma_unsat_empty(all, nv, old(self).formula().len() + i);
                }
                self.mark_original_clauses();
                return false;
            }
            if self.all_false(&c) {
                proof {
                    self.lemma_root_false(c@);
                    self.lemma_unsat_root_false(c@);
                    let rest = clause_views(clauses@).subrange(i + 1, n as int);
                    lemma_unsat_more(self.formula().push(c@), rest, nv);
                    assert(clause_views(clauses@).subrange(0, i + 1) =~= clause_views(clauses@).subrange(0, i as int).push(
                        c@,
                    ));
                    assert(self.formula().push(c@) + rest =~= all);
                }
                self.mark_original_clauses();
                return false;
            }
            let ghost s_pre = *self;
            proof {
                if !tautology(c@) {
                    let k = choose|k: int| 0 <= k < c@.len() && !self.is_false(#[trigger] c@[k] as int);
                    let kept = c@.to_set().filter(self.nonfalse());
                    assert(c@.to_set().contains(c@[k]));
                    assert(kept.contains(c@[k]));
                    assert(kept.len() != 0);
                }
            }
            self.add_clause(c, false);
            proof {
                assert(clause_views(clauses@).subrange(0, i + 1) =~= clause_views(clauses@).subrange(0, i as int).push(
                    clause_views(clauses@)[i as int],
                ));
                assert(self.formula() =~= old(self).formula() + clause_views(clauses@).subrange(0, i + 1));
                assert(self.dropped() == s_pre.dropped().push(false));
                assert(self.dropped() =~= old(self).dropped() + Seq::new((i + 1) as nat, |j: int| false));
            }
            let conflict = self.propagate();
            if let Some(cr) = conflict {
                proof {
                    self.lemma_unsat(cr as int);
                    let rest = clause_views(clauses@).subrange(i + 1, n as int);
                    lemma_unsat_more(self.formula(), rest, nv);
                    assert(self.formula() + rest =~= all);
                }
                self.mark_original_clauses();
                return false;
            }
            i = i + 1;
        }
        proof {
            assert(clause_views(clauses@).subrange(0, n as int) =~= clause_views(clauses@));
        }
        self.mark_original_clauses();
        true
    }

    /// One round of the search: propagates; a conflict at level 0 means the
    /// input has no model, one above level 0 is analysed; without a conflict
    /// the next variable is decided, or, with none left, the assignment
    /// satisfies every clause of the database.
    pub fn search_step(&mut self) -> (r: Step)
        requires
            old(self).heap_ready(),
            old(self).inv(),
            old(self).inv_watch(),
            old(self).inv_sound(),
            old(self).settled(),
            old(self).refuted_ok(),
        ensures
            final(self).refuted_ok() == old(self).refuted_ok(),
            final(self).inv(),
            final(self).inv_watch(),
            final(self).inv_sound(),
            final(self).formula() == old(self).formula(),
            final(self).dropped() == old(self).dropped(),
            final(self).heap_ready() == old(self).heap_ready(),
            final(self).nv() == old(self).nv(),
            final(self).original_clauses() == old(self).original_clauses(),
            match r {
                Step::Sat => {
                    &&& final(self).settled()
                    &&& forall|v: int| 0 <= v < final(self).nv() ==> #[trigger] final(self).assigned(v)
                    &&& forall|c: int| #[trigger] final(self).live(c) ==> final(self).satisfied(c)
                    &&& final(self).none_dropped()
                    &&& is_model(final(self).model(), final(self).formula(), final(self).nv())
                },
                Step::Unsat => unsatisfiable(final(self).formula(), final(self).nv()),
                Step::Conflict(a) => {
                    &&& final(self).dlevel() > 0
                    &&& final(self).analysis_ok(a.learnt@, a.btlevel)
                    &&& implies_clause(final(self).formula(), final(self).nv(), a.learnt@)
                    &&& final(self).db_implies(a.learnt@)
                    &&& a.visited@.len() >= 1
                    &&& final(self).conflicting(a.visited@[0] as int)
                    &&& final(self).uip_learnt(a.visited@[0] as int, a.bumped@, a.learnt@)
                    &&& final(self).first_uip(a.visited@[0] as int, a.bumped@, a.learnt@)
                    &&& final(self).visits_resolved(a.visited@[0] as int, a.bumped@, a.learnt@, a.visited@)
                    &&& a.visited@.no_duplicates()
                    &&& a.bumped@.no_duplicates()
                    &&& forall|m: int| 0 <= m < a.bumped@.len() ==> (#[trigger] a.bumped@[m]) < final(self).nv()
                    &&& forall|m: int| 0 <= m < a.visited@.len() ==> final(self).live(#[trigger] a.visited@[m] as int)
                },
                Step::Decided(v) => {
                    &&& final(self).settled()
                    &&& (v as int) < final(self).nv()
                    &&& final(self).dlevel() > 0
                    &&& final(self).trail_view().last() == (2 * v + 1) as Lit
                    &&& final(self).level_of(v as int) == final(self).dlevel()
                    &&& final(self).reason_of(v as int) == REASON_UNDEF
                    &&& forall|u: Var|
                        (u as int) < final(self).nv() && !#[trigger] final(self).assigned(u as int)
                            ==> final(self).heap_view().keys()[u as int] <= final(self).heap_view().keys()[v as int]
                    &&& old(self).trail_view().len() < final(self).trail_view().len()
                    &&& final(self).trail_view().subrange(0, old(self).trail_view().len() as int) == old(self).trail_view()
                    &&& forall|i: int|
                        old(self).trail_view().len() <= i < final(self).trail_view().len() - 1
                            ==> #[trigger] final(self).implied_on_trail(i)
                    &&& old(self).heap_view().order().len() > 0 && !old(self).assigned(
                        old(self).heap_view().order()[0] as int,
                    ) && (forall|i: int|
                        old(self).trail_view().len() <= i < final(self).trail_view().len() - 1 ==> var_of(
                            #[trigger] final(self).trail_view()[i] as int,
                        ) != old(self).heap_view().order()[0]) ==> v == old(self).heap_view().order()[0]
                },
            },
    {
        if self.refuted {
            proof {
                let i = choose|i: int| 0 <= i < self.dropped@.len() && self.dropped@[i];
                self.lemma_unsat_dropped(i);
            }
            return Step::Unsat;
        }
        let conflict = self.propagate();
        match conflict {
            Some(cr) => {
                if self.decision_level() == 0 {
                    proof {
                        self.lemma_unsat(cr as int);
                    }
                    Step::Unsat
                } else {
                    let ghost pre_a = *self;
                    let a = self.analyze(cr);
                    proof {
                        assert(self.clauses@ == pre_a.clauses@ && self.assigns@ == pre_a.assigns@);
                        assert forall|k: int| 0 <= k < self.clauses@[cr as int].lits@.len() implies #[trigger] self.is_false(
                            self.clauses@[cr as int].lits@[k] as int,
                        ) by {
                            assert(pre_a.is_false(pre_a.clauses@[cr as int].lits@[k] as int));
                        }
                    }
                    Step::Conflict(a)
                }
            },
            None => {
                let ghost mid = *self;
                match self.decide() {
                    None => {
                        proof {
                            self.lemma_model();
                            self.lemma_input_model();
                            if self.none_dropped() {
                                assert forall|i: int| 0 <= i < self.formula().len() implies #[trigger] clause_holds(
                                    self.model(),
                                    self.formula()[i],
                                ) by {
                                    assert(!self.dropped()[i]);
                                }
                            }
                        }
                        Step::Sat
                    },
                    Some(v) => {
                        proof {
                            assert forall|u: Var|
                                (u as int) < self.nv() && !#[trigger] self.assigned(u as int) implies self.heap_view().keys()[u as int]
                                <= self.heap_view().keys()[v as int] by {
                                assert(self.assigns_view()[u as int] == mid.assigns_view()[u as int]);
                                assert(!mid.assigned(u as int));
                            }
                            assert forall|u: int| 0 <= u < mid.nv() && u != v implies #[trigger] self.reason_of(u)
                                == mid.reason_of(u) && self.level_of(u) == mid.level_of(u) by {
                                assert(self.reason_of(u) == mid.reason_of(u));
                            }
                            self.lemma_decided_views(*old(self), mid, v);
                        }
                        Step::Decided(v)
                    },
                }
            },
        }
    }

    /// Backjumps to level `btlevel` and learns the clause `learnt` found by
    /// conflict analysis, asserting its first literal.  Answers false, having
    /// only backjumped, when the database has no room for another clause.
    pub fn backjump_and_learn(&mut self, learnt: Vec<Lit>, btlevel: u32) -> (ok: bool)
        requires
            old(self).inv(),
            old(self).inv_watch(),
            old(self).inv_sound(),
            old(self).analysis_ok(learnt@, btlevel),
            implies_clause(old(self).formula(), old(self).nv(), learnt@),
        ensures
            final(self).refuted_ok() == old(self).refuted_ok(),
            final(self).inv(),
            final(self).inv_watch(),
            final(self).inv_sound(),
            final(self).settled(),
            final(self).formula() == old(self).formula(),
            final(self).dropped() == old(self).dropped(),
            final(self).heap_ready() == old(self).heap_ready(),
            final(self).nv() == old(self).nv(),
            final(self).original_clauses() == old(self).original_clauses(),
            final(self).dlevel() == btlevel,
            ok == (learnt@.len() == 1 || old(self).num_clauses() + 1 < REASON_UNDEF),
            ok ==> final(self).trail_view().last() == learnt@[0],
            ok && learnt@.len() >= 2 ==> {
                let cr = old(self).num_clauses();
                &&& final(self).num_clauses() == cr + 1
                &&& final(self).clause_lits(cr) == learnt@
                &&& final(self).clause_learnt(cr)
                &&& final(self).reason_of(var_of(learnt@[0] as int)) == cr as u32
            },
    {
        let ghost s1 = *self;
        self.cancel_until(btlevel);
        proof {
            if learnt@.len() == 1 || s1.num_clauses() + 1 < REASON_UNDEF {
                Solver::lemma_analysis_learnable(s1, *self, learnt@, btlevel);
            }
        }
        let ghost s2 = *self;
        let ok = self.learn_clause(learnt);
        proof {
            assert(s2.num_clauses() == s1.num_clauses());
        }
        ok
    }
}


impl Solver {
    /// No input clause was dropped.
    pub closed spec fn none_dropped(&self) -> bool {
        forall|i: int| 0 <= i < self.dropped@.len() ==> !#[trigger] self.dropped@[i]
    }

    /// An input clause dropped for being false at level 0 has no model
    /// among those of the input.
    proof fn lemma_unsat_dropped(&self, i: int)
        requires
            self.inv_sizes(),
            self.inv_trail(),
            self.inv_sound(),
            0 <= i < self.dropped@.len(),
            self.dropped@[i],
        ensures
            unsatisfiable(self.formula@, self.nv()),
    {
        let f = self.formula@;
        let c = f[i];
        assert(self.root_false(c));
        assert forall|m: Seq<bool>| !#[trigger] is_model(m, f, self.nv()) by {
            if is_model(m, f, self.nv()) {
                assert(clause_holds(m, c));
                let k = choose|k: int| 0 <= k < c.len() && #[trigger] lit_holds(m, c[k]);
                assert(self.false_at_root(c[k]));
                let j = choose|j: int|
                    0 <= j < self.trail@.len() && self.level@[var_of(self.trail@[j] as int)] == 0 && #[trigger] self.trail@[j]
                        as int == neg_of(c[k] as int);
                let t = self.trail@[j];
                assert(implies_clause(f, self.nv(), seq![t]));
                assert(clause_holds(m, seq![t]));
                assert(seq![t][0] == t);
                lemma_holds_neg(m, c[k]);
            }
        }
    }

    /// After propagation from `pre` to `mid` and a decision on `v`, the
    /// literals propagated stay implied, and the heap root was decided
    /// unless it was assigned before.
    proof fn lemma_decided_views(&self, pre: Solver, mid: Solver, v: Var)
        requires
            pre.inv(),
            mid.inv(),
            self.inv(),
            mid.propagated_from(pre),
            (v as int) < mid.nv(),
            !mid.assigned(v as int),
            self.same_db(mid),
            self.trail_view() == mid.trail_view().push((2 * v + 1) as Lit),
            self.assigns_view() == mid.assigns_view().update(v as int, LBOOL_FALSE),
            forall|u: int|
                0 <= u < mid.nv() && u != v ==> #[trigger] self.reason_of(u) == mid.reason_of(u) && self.level_of(u)
                    == mid.level_of(u),
            mid.heap_view().order().len() > 0 && !mid.assigned(mid.heap_view().order()[0] as int) ==> v
                == mid.heap_view().order()[0],
        ensures
            pre.trail_view().len() < self.trail_view().len(),
            self.trail_view().subrange(0, pre.trail_view().len() as int) == pre.trail_view(),
            forall|i: int|
                pre.trail_view().len() <= i < self.trail_view().len() - 1 ==> #[trigger] self.implied_on_trail(i),
            pre.heap_view().order().len() > 0 && !pre.assigned(pre.heap_view().order()[0] as int) && (forall|i: int|
                pre.trail_view().len() <= i < self.trail_view().len() - 1 ==> var_of(
                    #[trigger] self.trail_view()[i] as int,
                ) != pre.heap_view().order()[0]) ==> v == pre.heap_view().order()[0],
    {
        mid.lemma_propagated_views(pre);
        let mt = mid.trail@;
        assert(self.trail@.subrange(0, pre.trail@.len() as int) =~= pre.trail@) by {
            assert(mt.subrange(0, pre.trail@.len() as int) == pre.trail@);
            assert forall|k: int| 0 <= k < pre.trail@.len() implies self.trail@[k] == pre.trail@[k] by {
                assert(mt.subrange(0, pre.trail@.len() as int)[k] == mt[k]);
            }
        }
        assert forall|i: int| pre.trail_view().len() <= i < self.trail_view().len() - 1 implies #[trigger]
            self.implied_on_trail(i) by {
            assert(mid.implied_at_top(i));
            let l = mt[i];
            assert(self.trail@[i] == l);
            assert(mid.is_true(l as int));
            let x = var_of(l as int);
            assert(mt[i] < 2 * mid.nv()) by {
                assert(mid.inv_trail());
            }
            assert(x != v);
            assert(self.reason_of(x) == mid.reason_of(x));
            let r = mid.reason_of(x) as int;
            assert(self.clause_lits(r) == mid.clause_lits(r));
            assert(self.is_true(l as int));
            assert forall|k: int| 1 <= k < self.clause_lits(r).len() implies #[trigger] self.is_false(
                self.clause_lits(r)[k] as int,
            ) && exists|j: int|
                0 <= j < i && #[trigger] self.trail_view()[j] as int == neg_of(self.clause_lits(r)[k] as int) by {
                let c = mid.clause_lits(r)[k];
                assert(mid.is_false(c as int));
                assert(clause_wf(mid.clauses@[r].lits@, mid.nv()));
                assert(var_of(c as int) != v);
                let j = choose|j: int| 0 <= j < i && #[trigger] mid.trail_view()[j] as int == neg_of(c as int);
                assert(self.trail_view()[j] == mid.trail_view()[j]);
            }
        }
        if pre.heap_view().order().len() > 0 && !pre.assigned(pre.heap_view().order()[0] as int) && (forall|i: int|
            pre.trail_view().len() <= i < self.trail_view().len() - 1 ==> var_of(
                #[trigger] self.trail_view()[i] as int,
            ) != pre.heap_view().order()[0]) {
            let root = pre.heap_view().order()[0];
            assert(mid.heap == pre.heap);
            if mid.assigned(root as int) {
                pre.heap.lemma_contents();
                assert(pre.heap.contents().contains(root));
                assert((root as int) < pre.nv());
                let i = choose|i: int| 0 <= i < mt.len() && var_of(#[trigger] mt[i] as int) == root;
                if i < pre.trail@.len() {
                    assert(mt[i] == pre.trail@[i]);
                    assert(pre.is_true(pre.trail@[i] as int));
                    assert(pre.trail@[i] < 2 * pre.nv());
                    assert(pre.assigned(root as int));
                } else {
                    assert(self.trail_view()[i] == mt[i]);
                }
            }
        }
    }

    /// Recording one more input clause, dropped or not, keeps the flag
    /// `refuted` in step.
    proof fn lemma_refuted_push(&self, pre: Solver, b: bool)
        requires
            self.dropped@ == pre.dropped@.push(b),
            self.refuted == (pre.refuted || b),
        ensures
            pre.refuted_ok() ==> self.refuted_ok(),
    {
        if !pre.refuted_ok() {
        } else if b {
            assert(self.dropped@[pre.dropped@.len() as int]);
        } else if pre.refuted {
            let i = choose|i: int| 0 <= i < pre.dropped@.len() && pre.dropped@[i];
            assert(self.dropped@[i]);
        } else {
            assert forall|i: int| 0 <= i < self.dropped@.len() implies !#[trigger] self.dropped@[i] by {
                if i < pre.dropped@.len() {
                    assert(!pre.dropped@[i]);
                }
            }
        }
    }

    /// Whether every literal of `c` is over a known variable and false.
    fn all_false(&self, c: &Vec<Lit>) -> (r: bool)
        requires
            self.inv(),
        ensures
            r == (in_range(c@, self.nv()) && forall|k: int| 0 <= k < c@.len() ==> #[trigger] self.is_false(c@[k] as int)),
    {
        let n = c.len();
        let mut k: usize = 0;
        while k < n
            invariant
                n == c@.len(),
                k <= n,
                self.inv(),
                forall|j: int| 0 <= j < k ==> (#[trigger] c@[j]) < 2 * self.nv() && self.is_false(c@[j] as int),
            decreases n - k,
        {
            if c[k] >= 2 * self.num_vars {
                proof {
                    assert(!(c@[k as int] < 2 * self.nv()));
                }
                return false;
            }
            if eval_lit(&self.assigns, c[k]) != LBOOL_FALSE {
                proof {
                    assert(!self.is_false(c@[k as int] as int));
                }
                return false;
            }
            k = k + 1;
        }
        true
    }

    /// A clause whose literals are all false at level 0 contradicts the
    /// formula: together they have no model.
    proof fn lemma_unsat_root_false(&self, c: Seq<Lit>)
        requires
            self.inv_sizes(),
            self.inv_trail(),
            self.sound_core(),
            self.root_false(c),
        ensures
            unsatisfiable(self.formula@.push(c), self.nv()),
    {
        let f = self.formula@;
        let nv = self.nv();
        assert forall|m: Seq<bool>| !#[trigger] is_model(m, f.push(c), nv) by {
            if is_model(m, f.push(c), nv) {
                assert(clause_holds(m, f.push(c)[f.len() as int]));
                assert(f.push(c)[f.len() as int] == c);
                let k = choose|k: int| 0 <= k < c.len() && #[trigger] lit_holds(m, c[k]);
                assert(self.false_at_root(c[k]));
                let j = choose|j: int|
                    0 <= j < self.trail@.len() && self.level@[var_of(self.trail@[j] as int)] == 0 && #[trigger] self.trail@[j]
                        as int == neg_of(c[k] as int);
                let t = self.trail@[j];
                assert forall|i: int| 0 <= i < f.len() implies #[trigger] clause_holds(m, f[i]) by {
                    assert(f.push(c)[i] == f[i]);
                    assert(clause_holds(m, f.push(c)[i]));
                }
                assert(is_model(m, f, nv));
                assert(implies_clause(f, nv, seq![t]));
                assert(clause_holds(m, seq![t]));
                assert(seq![t][0] == t);
                lemma_holds_neg(m, c[k]);
            }
        }
    }
}


impl Solver {
    /// Puts every variable into the decision heap, as the search does before
    /// its first decision.  Variables already in it stay where they are.
    pub fn fill_heap(&mut self)
        requires
            old(self).inv(),
            old(self).inv_watch(),
            old(self).inv_sound(),
        ensures
            final(self).refuted_ok() == old(self).refuted_ok(),
            final(self).inv(),
            final(self).inv_watch(),
            final(self).inv_sound(),
            final(self).formula() == old(self).formula(),
            final(self).dropped() == old(self).dropped(),
            final(self).settled() == old(self).settled(),
            final(self).heap_ready(),
            final(self).heap_view().keys() == old(self).heap_view().keys(),
            forall|v: Var| #[trigger] final(self).heap_view().contents().contains(v) <==> (v as int) < old(self).nv(),
            final(self).trail_view() == old(self).trail_view(),
            final(self).assigns_view() == old(self).assigns_view(),
            final(self).trail_lim_view() == old(self).trail_lim_view(),
            final(self).qhead_view() == old(self).qhead_view(),
            final(self).same_db(*old(self)),
            old(self).heap_view().contents() == Set::<Var>::empty() && (forall|a: int, b: int|
                0 <= a < old(self).nv() && 0 <= b < old(self).nv() ==> #[trigger] old(self).heap_view().keys()[a]
                    == #[trigger] old(self).heap_view().keys()[b]) ==> final(self).heap_view().order() == Seq::new(
                old(self).nv() as nat,
                |i: int| i as Var,
            ),
    {
        let n = self.num_vars;
        let mut v: u32 = 0;
        proof {
            self.heap.lemma_contents();
        }
        while v < n
            invariant
                self.refuted == old(self).refuted,
                v <= n,
                n == old(self).nv(),
                self.same_but_heap(*old(self)),
                self.heap.wf(),
                self.heap.num_vars() == old(self).nv(),
                self.heap.keys() == old(self).heap.keys(),
                forall|w: Var| #[trigger] self.heap.contents().contains(w) <==> (old(self).heap.contents().contains(w)
                    || w < v),
                old(self).inv(),
                forall|w: Var| #[trigger] old(self).heap.contents().contains(w) ==> (w as int) < old(self).nv(),
                old(self).heap.contents() == Set::<Var>::empty() && (forall|a: int, b: int|
                    0 <= a < old(self).nv() && 0 <= b < old(self).nv() ==> #[trigger] old(self).heap.keys()[a]
                        == #[trigger] old(self).heap.keys()[b]) ==> self.heap.order() == Seq::new(
                    v as nat,
                    |i: int| i as Var,
                ),
            decreases n - v,
        {
            let ghost h0 = self.heap;
            self.heap.insert(v);
            proof {
                if old(self).heap.contents() == Set::<Var>::empty() && (forall|a: int, b: int|
                    0 <= a < old(self).nv() && 0 <= b < old(self).nv() ==> #[trigger] old(self).heap.keys()[a]
                        == #[trigger] old(self).heap.keys()[b]) {
                    assert(!h0.contents().contains(v));
                    assert forall|w: Var| #[trigger] h0.contents().contains(w) implies h0.keys()[v as int]
                        <= h0.keys()[w as int] by {
                        assert(w < v);
                        assert(old(self).heap.keys()[v as int] == old(self).heap.keys()[w as int]);
                    }
                    assert(self.heap.order() =~= Seq::new((v + 1) as nat, |i: int| i as Var));
                }
            }
            v = v + 1;
        }
        let ghost s0 = *self;
        self.heap_filled = Ghost(true);
        proof {
            self.lemma_trail_frame(*old(self), true);
            self.lemma_watches_ok_frame(*old(self), self.wview());
            assert(self.wview() == old(self).wview());
            self.lemma_watch_frame(*old(self));
            self.lemma_sound_same(*old(self));
        }
    }
}


impl Solver {
    /// Literal `l` is over a variable of `marked` or one fixed at level 0.
    pub open spec fn covered_by(&self, marked: Seq<Var>, l: Lit) -> bool {
        marked.contains(var_of(l as int) as Var) || self.level_of(var_of(l as int)) == 0
    }

    /// Variable `v` was implied, and every other literal of its reason is
    /// covered by `marked`: its literal is redundant in a learnt clause.
    pub open spec fn dominated_by(&self, marked: Seq<Var>, v: int) -> bool {
        &&& self.reason_of(v) != REASON_UNDEF
        &&& forall|k: int|
            1 <= k < self.clause_lits(self.reason_of(v) as int).len() ==> #[trigger] self.covered_by(
                marked,
                self.clause_lits(self.reason_of(v) as int)[k],
            )
    }

    /// `learnt` is what first-UIP analysis of the conflicting clause `cc`
    /// followed by minimization derives, `marked` being the variables it
    /// met: every literal of `cc` is covered; the first literal of `learnt`
    /// negates the trail literal at position `q`, the lowest marked position
    /// of the current level, and every marked current-level position above
    /// it was resolved away through its reason; the other literals are the
    /// marked lower-level variables that are not redundant.
    pub open spec fn uip_learnt(&self, cc: int, marked: Seq<Var>, learnt: Seq<Lit>) -> bool {
        let t = self.trail_view();
        let d = self.dlevel();
        &&& learnt.len() >= 1
        &&& forall|k: int| 0 <= k < self.clause_lits(cc).len() ==> #[trigger] self.covered_by(marked, self.clause_lits(cc)[k])
        &&& forall|v: Var| #[trigger] marked.contains(v) ==> 0 < self.level_of(v as int) <= d
        &&& exists|q: int|
            0 <= q < t.len() && learnt[0] as int == neg_of(t[q] as int) && marked.contains(var_of(t[q] as int) as Var)
                && self.level_of(var_of(t[q] as int)) == d && forall|i: int|
                0 <= i < t.len() && marked.contains(var_of(#[trigger] t[i] as int) as Var) && self.level_of(
                    var_of(t[i] as int),
                ) == d && i != q ==> q < i && self.dominated_by(marked, var_of(t[i] as int))
        &&& forall|k: int|
            1 <= k < learnt.len() ==> marked.contains(var_of(#[trigger] learnt[k] as int) as Var) && self.level_of(
                var_of(learnt[k] as int),
            ) < d && !self.dominated_by(marked, var_of(learnt[k] as int))
        &&& forall|v: Var|
            #[trigger] marked.contains(v) && self.level_of(v as int) < d ==> self.dominated_by(marked, v as int) || exists|
                k: int,
            | 1 <= k < learnt.len() && var_of(learnt[k] as int) == v
    }

    /// Trail position `i` holds a variable of `marked` assigned at the
    /// current level.
    pub open spec fn marked_at(&self, marked: Seq<Var>, i: int) -> bool {
        &&& marked.contains(var_of(self.trail_view()[i] as int) as Var)
        &&& self.level_of(var_of(self.trail_view()[i] as int)) == self.dlevel()
    }

    /// Variable `v` occurs in the reason of the literal at trail position
    /// `i`, past its first literal.
    pub open spec fn reason_has(&self, i: int, v: int) -> bool {
        let r = self.reason_of(var_of(self.trail_view()[i] as int)) as int;
        exists|k: int| 1 <= k < self.clause_lits(r).len() && var_of(#[trigger] self.clause_lits(r)[k] as int) == v
    }

    /// Variable `v` is reached by resolution from the conflicting clause
    /// `cc`: it occurs in `cc`, or in the reason of a marked current-level
    /// position above `above`, which was resolved away.
    pub open spec fn uip_source(&self, cc: int, marked: Seq<Var>, v: int, above: int) -> bool {
        ||| exists|k: int| 0 <= k < self.clause_lits(cc).len() && var_of(#[trigger] self.clause_lits(cc)[k] as int) == v
        ||| exists|i: int|
            above < i < self.trail_view().len() && #[trigger] self.marked_at(marked, i) && self.reason_has(i, v)
    }

    /// First-UIP analysis of `cc` stopping at trail position `q`, having met
    /// the variables `marked`: every marked variable is reached from `cc`
    /// through the positions resolved (the marked current-level positions
    /// above `q`), and each position was resolved only while another marked
    /// current-level position below it, reached from the positions above
    /// it, was still open, so the analysis stopped at the first point where
    /// a single one was left.
    pub open spec fn uip_reached(&self, cc: int, marked: Seq<Var>, q: int) -> bool {
        &&& forall|v: Var| #[trigger] marked.contains(v) ==> self.uip_source(cc, marked, v as int, q)
        &&& forall|i: int|
            q < i < self.trail_view().len() && #[trigger] self.marked_at(marked, i) ==> exists|j: int|
                0 <= j < i && #[trigger] self.marked_at(marked, j) && self.uip_source(
                    cc,
                    marked,
                    var_of(self.trail_view()[j] as int),
                    i,
                )
    }

    /// `learnt` asserts the complement of the first unique implication point
    /// found from `cc`.
    pub open spec fn first_uip(&self, cc: int, marked: Seq<Var>, learnt: Seq<Lit>) -> bool {
        exists|q: int|
            0 <= q < self.trail_view().len() && learnt[0] as int == neg_of(self.trail_view()[q] as int)
                && #[trigger] self.uip_reached(cc, marked, q)
    }

    /// Reaching a variable, read over the public views.
    proof fn lemma_src_public(&self, cc: int, d: int, v: int, above: int)
        requires
            self.src_of(cc, d, v, above),
            0 <= above,
            self.inv_sizes(),
            self.inv_trail(),
            d == self.trail_lim@.len(),
            forall|w: int| 0 <= w < self.nv() ==> (#[trigger] self.seen@[w]) == self.analyze_toclear@.contains(w as Var),
        ensures
            self.uip_source(cc, self.analyze_toclear@, v, above),
    {
        let marked = self.analyze_toclear@;
        if self.in_clause(cc, v) {
            let k = choose|k: int| 0 <= k < self.clauses@[cc].lits@.len() && var_of(#[trigger] self.clauses@[cc].lits@[k] as int) == v;
            assert(var_of(self.clause_lits(cc)[k] as int) == v);
        } else {
            let i = choose|i: int| above < i < self.trail@.len() && #[trigger] self.resolved_at(i, d) && self.in_reason(i, v);
            assert(self.trail@[i] < 2 * self.nv());
            assert(self.marked_at(marked, i));
            let r = self.reason@[var_of(self.trail@[i] as int)] as int;
            let k = choose|k: int| 1 <= k < self.clauses@[r].lits@.len() && var_of(#[trigger] self.clauses@[r].lits@[k] as int) == v;
            assert(self.trail_view()[i] == self.trail@[i]);
            assert(self.reason_of(var_of(self.trail_view()[i] as int)) as int == r);
            assert(self.clause_lits(r) == self.clauses@[r].lits@);
            assert(var_of(self.clause_lits(r)[k] as int) == v);
            assert(self.reason_has(i, v));
        }
    }

    /// The analysis invariants, read over the public views.
    proof fn lemma_first_uip(&self, cc: int, d: int, q: int)
        requires
            self.provenance(cc, d, q),
            self.first_stop(cc, d, q + 1),
            0 <= q < self.trail@.len(),
            self.inv_sizes(),
            self.inv_trail(),
            d == self.trail_lim@.len(),
            self.marks_ok(d),
        ensures
            self.uip_reached(cc, self.analyze_toclear@, q),
    {
        let t = self.trail@;
        let marked = self.analyze_toclear@;
        let nv = self.nv();
        assert forall|v: int| 0 <= v < nv implies (#[trigger] self.seen@[v]) == marked.contains(v as Var) by {
            if marked.contains(v as Var) {
                let m = choose|m: int| 0 <= m < marked.len() && marked[m] == v as Var;
                assert(self.seen@[marked[m] as int]);
            }
        }
        assert forall|v: Var| #[trigger] marked.contains(v) implies self.uip_source(cc, marked, v as int, q) by {
            let m = choose|m: int| 0 <= m < marked.len() && marked[m] == v;
            assert(self.seen@[v as int]);
            self.lemma_src_public(cc, d, v as int, q);
        }
        assert forall|i: int| q < i < t.len() && #[trigger] self.marked_at(marked, i) implies exists|j: int|
            0 <= j < i && #[trigger] self.marked_at(marked, j) && self.uip_source(cc, marked, var_of(t[j] as int), i) by {
            assert(t[i] < 2 * nv);
            assert(self.resolved_at(i, d));
            let j = choose|j: int| 0 <= j < i && #[trigger] self.resolved_at(j, d) && self.src_of(cc, d, var_of(t[j] as int), i);
            assert(t[j] < 2 * nv);
            assert(self.marked_at(marked, j));
            self.lemma_src_public(cc, d, var_of(t[j] as int), i);
        }
    }

    /// `visited` lists the conflicting clause `cc`, then the reason of each
    /// position `ps` resolved by an analysis that stopped at `q`: exactly the
    /// marked current-level positions above `q`, newest first.
    pub open spec fn visits_from(&self, cc: int, marked: Seq<Var>, visited: Seq<usize>, q: int, ps: Seq<int>) -> bool {
        let t = self.trail_view();
        &&& visited.len() == ps.len() + 1
        &&& visited[0] as int == cc
        &&& forall|m: int|
            0 <= m < ps.len() ==> q < #[trigger] ps[m] < t.len() && self.marked_at(marked, ps[m]) && visited[m + 1] as int
                == self.reason_of(var_of(t[ps[m]] as int)) as int
        &&& forall|a: int, b: int| 0 <= a < b < ps.len() ==> #[trigger] ps[a] > #[trigger] ps[b]
        &&& forall|i: int| q < i < t.len() && #[trigger] self.marked_at(marked, i) ==> exists|m: int| 0 <= m < ps.len() && ps[m] == i
    }

    /// The clauses visited by the analysis that produced `learnt`: the
    /// conflicting clause, then the reason of every resolved position, newest
    /// first, each once.
    pub open spec fn visits_resolved(&self, cc: int, marked: Seq<Var>, learnt: Seq<Lit>, visited: Seq<usize>) -> bool {
        exists|q: int, ps: Seq<int>|
            0 <= q < self.trail_view().len() && learnt[0] as int == neg_of(self.trail_view()[q] as int)
                && #[trigger] self.visits_from(cc, marked, visited, q, ps)
    }

    /// One round of analysis adds the position just resolved to those
    /// listed, and they stay exactly the marked current-level positions
    /// above the new stopping point.
    proof fn lemma_visit_step(
        &self,
        s_b: Solver,
        d: int,
        ps0: Seq<int>,
        ps: Seq<int>,
        ti_old: int,
        q: int,
        p_old: Lit,
        visited: Seq<usize>,
    )
        requires
            s_b.inv_sizes(),
            s_b.inv_trail(),
            self.trail@ == s_b.trail@,
            self.level@ == s_b.level@,
            self.reason@ == s_b.reason@,
            self.num_vars == s_b.num_vars,
            self.seen@.len() == s_b.seen@.len(),
            forall|w: int| 0 <= w < s_b.nv() && #[trigger] s_b.seen@[w] ==> self.seen@[w],
            forall|i: int|
                ti_old <= i < self.trail@.len() ==> self.seen@[var_of(#[trigger] self.trail@[i] as int)]
                    == s_b.seen@[var_of(self.trail@[i] as int)],
            forall|i: int| q < i < ti_old ==> !#[trigger] self.resolved_at(i, d),
            0 <= q < ti_old <= self.trail@.len(),
            p_old == LIT_UNDEF ==> ps == ps0 && ps0.len() == 0 && ti_old == self.trail@.len(),
            p_old != LIT_UNDEF ==> ps == ps0.push(ti_old) && ti_old < self.trail@.len() && s_b.resolved_at(ti_old, d)
                && visited[ps0.len() as int + 1] as int == s_b.reason@[var_of(s_b.trail@[ti_old] as int)] as int,
            visited.len() == ps.len() + 1,
            forall|m: int|
                0 <= m < ps0.len() ==> ti_old < #[trigger] ps0[m] < s_b.trail@.len() && s_b.resolved_at(ps0[m], d)
                    && visited[m + 1] as int == s_b.reason@[var_of(s_b.trail@[ps0[m]] as int)] as int,
            forall|a: int, b: int| 0 <= a < b < ps0.len() ==> #[trigger] ps0[a] > #[trigger] ps0[b],
            forall|i: int|
                ti_old < i < s_b.trail@.len() && #[trigger] s_b.resolved_at(i, d) ==> exists|m: int|
                    0 <= m < ps0.len() && ps0[m] == i,
        ensures
            forall|m: int|
                0 <= m < ps.len() ==> q < #[trigger] ps[m] < self.trail@.len() && self.resolved_at(ps[m], d)
                    && visited[m + 1] as int == self.reason@[var_of(self.trail@[ps[m]] as int)] as int,
            forall|a: int, b: int| 0 <= a < b < ps.len() ==> #[trigger] ps[a] > #[trigger] ps[b],
            forall|i: int|
                q < i < self.trail@.len() && #[trigger] self.resolved_at(i, d) ==> exists|m: int|
                    0 <= m < ps.len() && ps[m] == i,
    {
        let t = self.trail@;
        assert forall|m: int| 0 <= m < ps.len() implies q < #[trigger] ps[m] < t.len() && self.resolved_at(ps[m], d)
            && visited[m + 1] as int == self.reason@[var_of(t[ps[m]] as int)] as int by {
            if m < ps0.len() {
                assert(ps[m] == ps0[m]);
                assert(s_b.resolved_at(ps0[m], d));
                assert(t[ps0[m]] < 2 * self.nv());
            } else {
                assert(ps[m] == ti_old);
                assert(t[ti_old] < 2 * self.nv());
            }
        }
        assert forall|a: int, b: int| 0 <= a < b < ps.len() implies #[trigger] ps[a] > #[trigger] ps[b] by {
            if b < ps0.len() {
                assert(ps[a] == ps0[a] && ps[b] == ps0[b]);
            } else {
                assert(ps[a] == ps0[a]);
            }
        }
        assert forall|i: int| q < i < t.len() && #[trigger] self.resolved_at(i, d) implies exists|m: int|
            0 <= m < ps.len() && ps[m] == i by {
            if i < ti_old {
                assert(false);
            } else if i == ti_old {
                assert(ps[ps.len() - 1] == i);
            } else {
                assert(self.seen@[var_of(t[i] as int)] == s_b.seen@[var_of(t[i] as int)]);
                assert(s_b.resolved_at(i, d));
                let m = choose|m: int| 0 <= m < ps0.len() && ps0[m] == i;
                assert(ps[m] == i);
            }
        }
    }

    /// The visiting invariants of the analysis loop, read over the public
    /// views.
    proof fn lemma_visits(&self, cc: int, d: int, q: int, ps: Seq<int>, visited: Seq<usize>)
        requires
            self.inv_sizes(),
            self.inv_trail(),
            d == self.trail_lim@.len(),
            self.marks_ok(d),
            0 <= q < self.trail@.len(),
            visited.len() == ps.len() + 1,
            visited[0] as int == cc,
            forall|m: int|
                0 <= m < ps.len() ==> q < #[trigger] ps[m] < self.trail@.len() && self.resolved_at(ps[m], d)
                    && visited[m + 1] as int == self.reason@[var_of(self.trail@[ps[m]] as int)] as int,
            forall|a: int, b: int| 0 <= a < b < ps.len() ==> #[trigger] ps[a] > #[trigger] ps[b],
            forall|i: int|
                q < i < self.trail@.len() && #[trigger] self.resolved_at(i, d) ==> exists|m: int|
                    0 <= m < ps.len() && ps[m] == i,
        ensures
            self.visits_from(cc, self.analyze_toclear@, visited, q, ps),
    {
        let t = self.trail@;
        let marked = self.analyze_toclear@;
        let nv = self.nv();
        assert forall|v: int| 0 <= v < nv implies (#[trigger] self.seen@[v]) == marked.contains(v as Var) by {
            if marked.contains(v as Var) {
                let m = choose|m: int| 0 <= m < marked.len() && marked[m] == v as Var;
                assert(self.seen@[marked[m] as int]);
            }
        }
        assert forall|m: int| 0 <= m < ps.len() implies q < #[trigger] ps[m] < t.len() && self.marked_at(marked, ps[m])
            && visited[m + 1] as int == self.reason_of(var_of(t[ps[m]] as int)) as int by {
            assert(t[ps[m]] < 2 * nv);
        }
        assert forall|i: int| q < i < t.len() && #[trigger] self.marked_at(marked, i) implies exists|m: int|
            0 <= m < ps.len() && ps[m] == i by {
            assert(t[i] < 2 * nv);
            assert(self.resolved_at(i, d));
        }
    }

    /// The clauses visited are distinct: the reasons of distinct trail
    /// literals differ (each starts with its own literal), and none is the
    /// conflicting clause (whose literals are all false).
    proof fn lemma_visited_distinct(&self, cc: int, q: int, ps: Seq<int>, visited: Seq<usize>)
        requires
            self.inv_sizes(),
            self.inv_trail(),
            self.conflicting(cc),
            0 <= q,
            visited.len() == ps.len() + 1,
            visited[0] as int == cc,
            forall|m: int|
                0 <= m < ps.len() ==> q < #[trigger] ps[m] < self.trail@.len() && self.reason@[var_of(
                    self.trail@[ps[m]] as int,
                )] != REASON_UNDEF && visited[m + 1] as int == self.reason@[var_of(self.trail@[ps[m]] as int)] as int,
            forall|a: int, b: int| 0 <= a < b < ps.len() ==> #[trigger] ps[a] > #[trigger] ps[b],
        ensures
            visited.no_duplicates(),
    {
        let t = self.trail@;
        assert forall|a: int, b: int| 0 <= a < visited.len() && 0 <= b < visited.len() && a != b implies visited[a]
            != visited[b] by {
            if a > 0 {
                assert(self.reason_ok(ps[a - 1]));
                assert(self.is_true(t[ps[a - 1]] as int));
            }
            if b > 0 {
                assert(self.reason_ok(ps[b - 1]));
                assert(self.is_true(t[ps[b - 1]] as int));
            }
            if a > 0 && b > 0 {
                if visited[a] == visited[b] {
                    let r = visited[a] as int;
                    assert(self.clauses@[r].lits@[0] == t[ps[a - 1]]);
                    assert(self.clauses@[r].lits@[0] == t[ps[b - 1]]);
                    assert(ps[a - 1] != ps[b - 1]);
                }
            } else if a > 0 {
                if visited[a] == visited[b] {
                    let r = visited[a] as int;
                    assert(self.is_false(self.clauses@[r].lits@[0] as int));
                    lemma_value_of_neg(self.assigns@, t[ps[a - 1]] as int);
                }
            } else if b > 0 {
                if visited[a] == visited[b] {
                    let r = visited[b] as int;
                    assert(self.is_false(self.clauses@[r].lits@[0] as int));
                }
            }
        }
    }

    /// `visits_resolved` depends only on the trail, levels, reasons and
    /// clauses.
    proof fn lemma_visits_same(&self, pre: Solver, cc: int, marked: Seq<Var>, learnt: Seq<Lit>, visited: Seq<usize>)
        requires
            pre.visits_resolved(cc, marked, learnt, visited),
            self.trail@ == pre.trail@,
            self.trail_lim@ == pre.trail_lim@,
            self.level@ == pre.level@,
            self.reason@ == pre.reason@,
            self.clauses@ == pre.clauses@,
        ensures
            self.visits_resolved(cc, marked, learnt, visited),
    {
        let (q, ps) = choose|q: int, ps: Seq<int>|
            0 <= q < pre.trail_view().len() && learnt[0] as int == neg_of(pre.trail_view()[q] as int)
                && #[trigger] pre.visits_from(cc, marked, visited, q, ps);
        assert(self.trail_view() == pre.trail_view());
        assert(self.dlevel() == pre.dlevel());
        assert forall|i: int| #[trigger] self.marked_at(marked, i) == pre.marked_at(marked, i) by {
            let x = var_of(self.trail_view()[i] as int);
            assert(self.level_of(x) == pre.level_of(x));
        }
        assert forall|m: int| 0 <= m < ps.len() implies visited[m + 1] as int == self.reason_of(
            var_of(self.trail_view()[ps[m]] as int),
        ) as int by {
            let x = var_of(self.trail_view()[ps[m]] as int);
            assert(self.reason_of(x) == pre.reason_of(x));
        }
        assert(self.visits_from(cc, marked, visited, q, ps));
    }

    /// `first_uip` depends only on the trail, levels, reasons and clauses.
    proof fn lemma_first_uip_same(&self, pre: Solver, cc: int, marked: Seq<Var>, learnt: Seq<Lit>)
        requires
            pre.first_uip(cc, marked, learnt),
            self.trail@ == pre.trail@,
            self.trail_lim@ == pre.trail_lim@,
            self.level@ == pre.level@,
            self.reason@ == pre.reason@,
            self.clauses@ == pre.clauses@,
        ensures
            self.first_uip(cc, marked, learnt),
    {
        let q = choose|q: int|
            0 <= q < pre.trail_view().len() && learnt[0] as int == neg_of(pre.trail_view()[q] as int)
                && #[trigger] pre.uip_reached(cc, marked, q);
        assert(self.trail_view() == pre.trail_view());
        assert(self.dlevel() == pre.dlevel());
        assert forall|i: int| #[trigger] self.marked_at(marked, i) == pre.marked_at(marked, i) by {
            let x = var_of(self.trail_view()[i] as int);
            assert(self.level_of(x) == pre.level_of(x));
        }
        assert forall|i: int, v: int| #[trigger] self.reason_has(i, v) == pre.reason_has(i, v) by {
            let x = var_of(self.trail_view()[i] as int);
            let r = self.reason_of(x) as int;
            assert(pre.reason_of(x) == self.reason_of(x));
            assert(self.clause_lits(r) == pre.clause_lits(r));
        }
        assert(self.clause_lits(cc) == pre.clause_lits(cc));
        assert forall|v: int, a: int| #[trigger] self.uip_source(cc, marked, v, a) == pre.uip_source(cc, marked, v, a) by {
            if exists|i: int| a < i < pre.trail_view().len() && #[trigger] pre.marked_at(marked, i) && pre.reason_has(i, v) {
                let i = choose|i: int| a < i < pre.trail_view().len() && #[trigger] pre.marked_at(marked, i) && pre.reason_has(i, v);
                assert(self.marked_at(marked, i) && self.reason_has(i, v));
            }
            if exists|i: int| a < i < self.trail_view().len() && #[trigger] self.marked_at(marked, i) && self.reason_has(i, v) {
                let i = choose|i: int| a < i < self.trail_view().len() && #[trigger] self.marked_at(marked, i) && self.reason_has(i, v);
                assert(pre.marked_at(marked, i) && pre.reason_has(i, v));
            }
        }
        let t = self.trail_view();
        assert forall|v: Var| #[trigger] marked.contains(v) implies self.uip_source(cc, marked, v as int, q) by {
            assert(pre.uip_source(cc, marked, v as int, q));
        }
        assert forall|i: int| q < i < t.len() && #[trigger] self.marked_at(marked, i) implies exists|j: int|
            0 <= j < i && #[trigger] self.marked_at(marked, j) && self.uip_source(cc, marked, var_of(t[j] as int), i) by {
            assert(pre.marked_at(marked, i));
            let j = choose|j: int|
                0 <= j < i && #[trigger] pre.marked_at(marked, j) && pre.uip_source(cc, marked, var_of(t[j] as int), i);
            assert(self.marked_at(marked, j));
            assert(self.uip_source(cc, marked, var_of(t[j] as int), i));
        }
        assert(self.uip_reached(cc, marked, q));
    }

    /// While the analysis marks are still set, they are the listed
    /// variables, and the analysis facts read as `uip_learnt`.
    proof fn lemma_uip_learnt(&self, cc: int, q: int, d: int, gathered: Seq<Lit>, minimized: Seq<Lit>, learnt: Seq<Lit>)
        requires
            self.learnt_context(cc, q, d, gathered, minimized),
            learnt.len() == minimized.len(),
            learnt[0] == minimized[0],
            distinct_vars(learnt),
            distinct_vars(minimized),
            forall|k: int| 0 <= k < learnt.len() ==> #[trigger] minimized.contains(learnt[k]),
            forall|k: int| 0 <= k < minimized.len() ==> #[trigger] learnt.contains(minimized[k]),
        ensures
            self.uip_learnt(cc, self.analyze_toclear@, learnt),
    {
        let t = self.trail@;
        let marked = self.analyze_toclear@;
        let nv = self.nv();
        assert forall|v: int| 0 <= v < nv implies (#[trigger] self.seen@[v]) == marked.contains(v as Var) by {
            if marked.contains(v as Var) {
                let m = choose|m: int| 0 <= m < marked.len() && marked[m] == v as Var;
                assert(self.seen@[marked[m] as int]);
            }
        }
        // covered literals of clauses
        assert forall|r: int, k: int|
            0 <= r < self.clauses@.len() && 0 <= k < self.clauses@[r].lits@.len() implies (self.seen@[var_of(
            #[trigger] self.clauses@[r].lits@[k] as int,
        )] || self.level@[var_of(self.clauses@[r].lits@[k] as int)] == 0) == self.covered_by(
            marked,
            self.clauses@[r].lits@[k],
        ) by {
            assert(clause_wf(self.clauses@[r].lits@, nv));
            assert(self.clauses@[r].lits@[k] < 2 * nv);
        }
        let cl = self.clause_lits(cc);
        assert forall|k: int| 0 <= k < cl.len() implies #[trigger] self.covered_by(marked, cl[k]) by {
            assert(self.closed_from(cc, 0));
            assert(cl[k] == self.clauses@[cc].lits@[k]);
        }
        assert forall|v: Var| #[trigger] marked.contains(v) implies 0 < self.level_of(v as int) <= d by {
            let m = choose|m: int| 0 <= m < marked.len() && marked[m] == v;
        }
        assert(marked.contains(var_of(t[q] as int) as Var)) by {
            assert(t[q] < 2 * nv);
        }
        assert forall|i: int|
            0 <= i < t.len() && marked.contains(var_of(#[trigger] t[i] as int) as Var) && self.level_of(var_of(t[i] as int))
                == d && i != q implies q < i && self.dominated_by(marked, var_of(t[i] as int)) by {
            assert(t[i] < 2 * nv);
            assert(self.seen@[var_of(t[i] as int)]);
            if i < q {
                assert(false);
            }
            assert(self.resolved_above(q, d));
            let v = var_of(t[i] as int);
            let r = self.reason@[v] as int;
            assert(self.closed_from(r, 1));
            assert(self.reason_ok(i));
            assert forall|k: int| 1 <= k < self.clause_lits(r).len() implies #[trigger] self.covered_by(
                marked,
                self.clause_lits(r)[k],
            ) by {
                assert(self.clause_lits(r)[k] == self.clauses@[r].lits@[k]);
            }
        }
        assert(learnt[0] as int == neg_of(t[q] as int));
        assert(self.trail_view() == t);
        assert(self.dlevel() == d);
        assert(0 <= q < t.len() && learnt[0] as int == neg_of(t[q] as int) && marked.contains(var_of(t[q] as int) as Var)
            && self.level_of(var_of(t[q] as int)) == d && forall|i: int|
            0 <= i < t.len() && marked.contains(var_of(#[trigger] t[i] as int) as Var) && self.level_of(var_of(t[i] as int))
                == d && i != q ==> q < i && self.dominated_by(marked, var_of(t[i] as int)));
        let gs = gathered.subrange(1, gathered.len() as int);
        let f = |l: Lit| self.keeps(l);
        let fg = gs.filter(f);
        assert(minimized == seq![minimized[0]] + fg);
        // a lower-level marked variable's literal is kept exactly when it is not redundant
        assert forall|l: Lit| 0 <= var_of(l as int) < nv && self.seen@[var_of(l as int)] implies self.keeps(l)
            == !self.dominated_by(marked, var_of(l as int)) by {
            let v = var_of(l as int);
            let r = self.reason@[v];
            if r != REASON_UNDEF {
                assert(self.assigned(v)) by {
                    assert(self.marks_ok(d));
                }
                self.lemma_assigned_reason(v);
                let rl = self.clauses@[r as int].lits@;
                assert(self.clause_lits(r as int) == rl);
                if self.keeps(l) {
                    let k = choose|k: int|
                        1 <= k < rl.len() && !self.seen@[var_of(#[trigger] rl[k] as int)] && self.level@[var_of(rl[k] as int)]
                            > 0;
                    assert(!self.covered_by(marked, self.clause_lits(r as int)[k]));
                } else {
                    assert forall|k: int| 1 <= k < self.clause_lits(r as int).len() implies #[trigger] self.covered_by(
                        marked,
                        self.clause_lits(r as int)[k],
                    ) by {
                        assert(!(!self.seen@[var_of(rl[k] as int)] && self.level@[var_of(rl[k] as int)] > 0));
                    }
                }
            }
        }
        assert forall|k: int| 1 <= k < learnt.len() implies marked.contains(var_of(#[trigger] learnt[k] as int) as Var)
            && self.level_of(var_of(learnt[k] as int)) < d && !self.dominated_by(marked, var_of(learnt[k] as int)) by {
            let x = learnt[k];
            assert(minimized.contains(x));
            let k2 = choose|k2: int| 0 <= k2 < minimized.len() && minimized[k2] == x;
            if k2 == 0 {
                assert(var_of(learnt[k] as int) != var_of(learnt[0] as int));
            }
            assert(minimized[k2] == fg[k2 - 1]);
            gs.filter_lemma(f);
            assert(f(fg[k2 - 1]));
            assert(fg.contains(fg[k2 - 1]));
            gs.lemma_filter_contains_rev(f, x);
            assert(gs.contains(x));
            let g = choose|g: int| 0 <= g < gs.len() && gs[g] == x;
            assert(gathered[g + 1] == x);
            assert(self.gathered_ok(gathered, d));
        }
        assert forall|v: Var| #[trigger] marked.contains(v) && self.level_of(v as int) < d implies self.dominated_by(
            marked,
            v as int,
        ) || exists|k: int| 1 <= k < learnt.len() && var_of(learnt[k] as int) == v by {
            assert(self.seen@[v as int]);
            assert(self.gathers_all(gathered, d));
            let g = choose|g: int| 1 <= g < gathered.len() && var_of(#[trigger] gathered[g] as int) == v;
            let x = gathered[g];
            assert(self.gathered_ok(gathered, d));
            if !self.dominated_by(marked, v as int) {
                assert(self.keeps(x));
                assert(gs[g - 1] == x);
                gs.lemma_filter_contains(f, g - 1);
                assert(fg.contains(x));
                let j = choose|j: int| 0 <= j < fg.len() && fg[j] == x;
                assert(minimized[j + 1] == x);
                assert(learnt.contains(minimized[j + 1]));
                let k = choose|k: int| 0 <= k < learnt.len() && learnt[k] == x;
                if k == 0 {
                    assert(var_of(learnt[0] as int) == var_of(t[q] as int));
                    assert(self.level@[var_of(t[q] as int)] == d);
                }
                assert(var_of(learnt[k] as int) == v);
            }
        }
    }
}


impl Solver {
    /// `uip_learnt` depends only on the trail, the levels, the reasons and
    /// the clauses.
    proof fn lemma_uip_same(&self, pre: Solver, cc: int, marked: Seq<Var>, learnt: Seq<Lit>)
        requires
            pre.uip_learnt(cc, marked, learnt),
            self.trail@ == pre.trail@,
            self.trail_lim@ == pre.trail_lim@,
            self.level@ == pre.level@,
            self.reason@ == pre.reason@,
            self.clauses@ == pre.clauses@,
        ensures
            self.uip_learnt(cc, marked, learnt),
    {
        let t = self.trail_view();
        let d = self.dlevel();
        assert(t == pre.trail_view());
        assert(d == pre.dlevel());
        assert forall|l: Lit| #[trigger] self.covered_by(marked, l) == pre.covered_by(marked, l) by {}
        assert forall|v: int| #[trigger] self.dominated_by(marked, v) == pre.dominated_by(marked, v) by {
            let r = self.reason_of(v) as int;
            assert(self.reason_of(v) == pre.reason_of(v));
            let cl = self.clause_lits(r);
            assert(cl == pre.clause_lits(r));
            if pre.dominated_by(marked, v) {
                assert forall|k: int| 1 <= k < cl.len() implies #[trigger] self.covered_by(marked, cl[k]) by {
                    assert(pre.covered_by(marked, pre.clause_lits(r)[k]));
                }
            }
            if self.dominated_by(marked, v) {
                assert forall|k: int| 1 <= k < cl.len() implies #[trigger] pre.covered_by(marked, cl[k]) by {
                    assert(self.covered_by(marked, self.clause_lits(r)[k]));
                }
            }
        }
        assert forall|v: int| #[trigger] self.level_of(v) == pre.level_of(v) by {}
        assert(self.clause_lits(cc) == pre.clause_lits(cc));
        let q = choose|q: int|
            0 <= q < t.len() && learnt[0] as int == neg_of(t[q] as int) && marked.contains(var_of(t[q] as int) as Var)
                && pre.level_of(var_of(t[q] as int)) == d && forall|i: int|
                0 <= i < t.len() && marked.contains(var_of(#[trigger] t[i] as int) as Var) && pre.level_of(
                    var_of(t[i] as int),
                ) == d && i != q ==> q < i && pre.dominated_by(marked, var_of(t[i] as int));
        assert(0 <= q < t.len() && learnt[0] as int == neg_of(t[q] as int) && marked.contains(var_of(t[q] as int) as Var)
            && self.level_of(var_of(t[q] as int)) == d && forall|i: int|
            0 <= i < t.len() && marked.contains(var_of(#[trigger] t[i] as int) as Var) && self.level_of(var_of(t[i] as int))
                == d && i != q ==> q < i && self.dominated_by(marked, var_of(t[i] as int)));
    }
}

} // verus!
