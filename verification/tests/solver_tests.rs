use lib::lit::{lit_from_dimacs, lit_neg, lit_var, LBOOL_FALSE, LBOOL_TRUE, LBOOL_UNDEF};
use lib::solver::{fits, Solver, Step, REASON_UNDEF};

fn lits(ds: &[i32]) -> Vec<u32> {
    ds.iter().map(|&d| lit_from_dimacs(d)).collect()
}

/// Loads the clauses as the command-line program does; `None` when an
/// empty clause or a conflict at level 0 shows up while loading.
fn load(num_vars: u32, clauses: &[Vec<i32>]) -> Option<Solver> {
    let mut s = Solver::new(num_vars);
    let cls: Vec<Vec<u32>> = clauses.iter().map(|c| lits(c)).collect();
    if s.load_clauses(cls) {
        assert_eq!(s.num_original_clauses(), s.clause_count());
        Some(s)
    } else {
        None
    }
}

/// The search loop without activity bumping: returns whether the solver
/// answers satisfiable, and the solver.
fn search(mut s: Solver) -> (bool, Solver) {
    s.fill_heap();
    loop {
        match s.search_step() {
            Step::Sat => return (true, s),
            Step::Unsat => {
                assert_eq!(s.decision_level(), 0);
                return (false, s);
            }
            Step::Conflict(a) => {
                assert!(s.decision_level() > 0);
                assert!(!a.learnt.is_empty());
                assert!(s.is_conflict(a.visited[0]));
                let bt = a.btlevel;
                assert!(s.backjump_and_learn(a.learnt, bt));
                assert_eq!(s.decision_level(), bt);
            }
            Step::Decided(v) => {
                assert_eq!(s.var_value(v), LBOOL_FALSE);
            }
        }
    }
}

fn solve(num_vars: u32, clauses: &[Vec<i32>]) -> (bool, Option<Solver>) {
    match load(num_vars, clauses) {
        None => (false, None),
        Some(s) => {
            let (sat, s) = search(s);
            (sat, Some(s))
        }
    }
}

fn satisfies(s: &Solver, clause: &[i32]) -> bool {
    clause.iter().any(|&d| {
        let v = s.var_value(lit_var(lit_from_dimacs(d)));
        if d > 0 { v == LBOOL_TRUE } else { v == LBOOL_FALSE }
    })
}

fn brute_force(num_vars: u32, clauses: &[Vec<i32>]) -> bool {
    (0u32..(1 << num_vars)).any(|m| {
        clauses.iter().all(|c| {
            c.iter().any(|&d| {
                let bit = (m >> (d.unsigned_abs() - 1)) & 1 == 1;
                if d > 0 { bit } else { !bit }
            })
        })
    })
}

fn pigeonhole(pigeons: i32, holes: i32) -> (u32, Vec<Vec<i32>>) {
    let var = |p: i32, h: i32| p * holes + h + 1;
    let mut cls = Vec::new();
    for p in 0..pigeons {
        cls.push((0..holes).map(|h| var(p, h)).collect());
    }
    for h in 0..holes {
        for p in 0..pigeons {
            for q in p + 1..pigeons {
                cls.push(vec![-var(p, h), -var(q, h)]);
            }
        }
    }
    ((pigeons * holes) as u32, cls)
}

#[test]
fn new_solver_is_empty() {
    let s = Solver::new(3);
    assert_eq!(s.num_vars(), 3);
    assert_eq!(s.clause_count(), 0);
    assert_eq!(s.trail_len(), 0);
    assert_eq!(s.decision_level(), 0);
    for v in 0..3 {
        assert_eq!(s.var_value(v), LBOOL_UNDEF);
    }
}

#[test]
fn input_clauses_are_sorted_and_deduplicated() {
    let mut s = Solver::new(4);
    let r = s.add_clause(lits(&[3, -1, 3, 2, -1]), false);
    assert_eq!(r, Some(0));
    assert_eq!(s.clause_literals(0), &vec![1, 2, 4]);
    assert!(!s.clause_is_learnt(0));
    assert_eq!(s.trail_len(), 0);
}

#[test]
fn tautologies_are_dropped() {
    let mut s = Solver::new(3);
    assert_eq!(s.add_clause(lits(&[1, 2, -1]), false), None);
    assert_eq!(s.clause_count(), 0);
    assert_eq!(s.trail_len(), 0);
}

#[test]
fn unit_clauses_assign_at_level_zero() {
    let mut s = Solver::new(3);
    assert_eq!(s.add_clause(lits(&[-2]), false), None);
    assert_eq!(s.clause_count(), 0);
    assert_eq!(s.trail_literals(), &vec![3]);
    assert_eq!(s.var_value(1), LBOOL_FALSE);
}

#[test]
fn satisfied_clauses_are_dropped_and_false_literals_removed() {
    let mut s = Solver::new(4);
    s.add_clause(lits(&[1]), false);
    s.add_clause(lits(&[-2]), false);
    assert!(s.propagate().is_none());
    assert_eq!(s.add_clause(lits(&[1, 3]), false), None);
    assert_eq!(s.clause_count(), 0);
    assert_eq!(s.add_clause(lits(&[2, 3, 4]), false), Some(0));
    assert_eq!(s.clause_literals(0), &vec![4, 6]);
    assert_eq!(s.add_clause(lits(&[2, -4]), false), None);
    assert_eq!(s.var_value(3), LBOOL_FALSE);
}

#[test]
fn a_clause_false_at_level_zero_is_unsatisfiable() {
    // Adding [-1] on its own, with x1 already true, stores nothing: every
    // literal is false at level 0.
    let mut s = Solver::new(1);
    assert_eq!(s.add_clause(lits(&[1]), false), None);
    assert!(s.propagate().is_none());
    assert_eq!(s.add_clause(lits(&[-1]), false), None);
    assert_eq!(s.clause_count(), 0);
    // The search then answers that the clauses have no model.
    s.mark_original_clauses();
    let (sat, _) = search(s);
    assert!(!sat);
    // Loading the same clauses answers that they have no model.
    let (sat, s) = solve(1, &[vec![1], vec![-1]]);
    assert!(!sat);
    assert!(s.is_none());
}

#[test]
fn unit_propagation_follows_binary_clauses() {
    let mut s = Solver::new(4);
    s.add_clause(lits(&[-1, 2]), false);
    s.add_clause(lits(&[-2, 3]), false);
    s.add_clause(lits(&[-3, 4]), false);
    s.add_clause(lits(&[1]), false);
    assert!(s.propagate().is_none());
    assert_eq!(s.trail_literals(), &vec![0, 2, 4, 6]);
    for v in 0..4 {
        assert_eq!(s.var_value(v), LBOOL_TRUE);
    }
    assert!(s.fully_propagated());
    assert_eq!(s.propagations(), 4);
}

#[test]
fn propagation_reports_a_conflicting_clause() {
    let mut s = Solver::new(3);
    s.add_clause(lits(&[1, 2]), false);
    s.add_clause(lits(&[1, -2]), false);
    s.mark_original_clauses();
    s.fill_heap();
    assert!(s.propagate().is_none());
    assert_eq!(s.decide(), Some(0));
    assert_eq!(s.decisions(), 1);
    assert_eq!(s.trail_literals(), &vec![1]);
    let c = s.propagate();
    assert!(c.is_some());
    let cr = c.unwrap();
    assert!(s.is_conflict(cr));
    assert!(!s.clause_satisfied(cr));
}

#[test]
fn conflict_analysis_learns_the_asserting_unit() {
    let mut s = Solver::new(3);
    s.add_clause(lits(&[1, 2]), false);
    s.add_clause(lits(&[1, -2]), false);
    s.mark_original_clauses();
    s.fill_heap();
    assert!(s.propagate().is_none());
    assert_eq!(s.decide(), Some(0));
    let cr = s.propagate().unwrap();
    let a = s.analyze(cr);
    assert_eq!(a.learnt, vec![0]);
    assert_eq!(a.btlevel, 0);
    assert_eq!(a.visited.len(), 2);
    let mut bumped = a.bumped.clone();
    bumped.sort();
    assert_eq!(bumped, vec![0, 1]);
    s.cancel_until(a.btlevel);
    assert_eq!(s.trail_len(), 0);
    assert_eq!(s.var_value(0), LBOOL_UNDEF);
    assert!(s.learn_clause(a.learnt));
    assert_eq!(s.trail_literals(), &vec![0]);
    assert_eq!(s.clause_count(), 2);
}

#[test]
fn longer_learnt_clauses_are_stored_and_assert_their_first_literal() {
    // Deciding x1 and then x2 false forces a conflict on (1 2 4) and
    // (1 2 -4); the learnt clause is (2 1), asserting x2 at level 1.
    let mut s = Solver::new(4);
    s.add_clause(lits(&[1, 2, 4]), false);
    s.add_clause(lits(&[1, 2, -4]), false);
    s.mark_original_clauses();
    s.fill_heap();
    s.set_var_activity(0, 10);
    s.set_var_activity(1, 5);
    assert!(s.propagate().is_none());
    assert_eq!(s.decide(), Some(0));
    assert!(s.propagate().is_none());
    assert_eq!(s.decide(), Some(1));
    let cr = s.propagate().unwrap();
    let a = s.analyze(cr);
    assert_eq!(a.learnt, vec![2, 0]);
    assert_eq!(a.btlevel, 1);
    s.cancel_until(a.btlevel);
    assert_eq!(s.trail_literals(), &vec![1]);
    assert!(s.learn_clause(a.learnt));
    assert_eq!(s.clause_count(), 3);
    assert_eq!(s.clause_literals(2), &vec![2, 0]);
    assert!(s.clause_is_learnt(2));
    assert!(s.is_clause_reason(2));
    assert_eq!(s.trail_literals(), &vec![1, 2]);
    assert_eq!(s.learnt_indices(), vec![2]);
}

#[test]
fn clauses_that_are_not_learnable_are_refused() {
    let mut s = Solver::new(3);
    s.add_clause(lits(&[1, 2]), false);
    s.mark_original_clauses();
    s.fill_heap();
    assert!(!s.learn_clause(vec![]));
    assert!(!s.learn_clause(vec![0, 1]));
    assert!(!s.learn_clause(vec![0, 9]));
    assert!(!s.learn_clause(vec![0, 2]));
    assert!(s.learn_clause(vec![4]));
    assert!(!s.learn_clause(vec![4]));
    assert_eq!(s.trail_literals(), &vec![4]);
}

#[test]
fn decisions_take_the_most_active_variable_false() {
    let mut s = Solver::new(4);
    s.add_clause(lits(&[1, 2, 3, 4]), false);
    s.mark_original_clauses();
    s.fill_heap();
    s.set_var_activity(2, 5);
    s.set_var_activity(3, 7);
    assert_eq!(s.var_activity(3), 7);
    assert_eq!(s.decide(), Some(3));
    assert_eq!(s.trail_literals(), &vec![7]);
    assert!(s.propagate().is_none());
    assert_eq!(s.decide(), Some(2));
    assert_eq!(s.decision_level(), 2);
    s.set_all_activities(vec![0, 9, 0, 0]);
    assert!(s.propagate().is_none());
    assert_eq!(s.decide(), Some(1));
    assert!(s.propagate().is_none());
    assert_eq!(s.trail_literals(), &vec![7, 5, 3, 0]);
    assert_eq!(s.decide(), None);
}

#[test]
fn backjumping_unassigns_the_later_levels() {
    let mut s = Solver::new(3);
    s.add_clause(lits(&[1, 2, 3]), false);
    s.mark_original_clauses();
    s.fill_heap();
    s.decide();
    s.propagate();
    s.decide();
    s.propagate();
    assert_eq!(s.decision_level(), 2);
    s.cancel_until(5);
    assert_eq!(s.decision_level(), 2);
    s.cancel_until(1);
    assert_eq!(s.decision_level(), 1);
    assert_eq!(s.trail_len(), 1);
    s.cancel_until(0);
    assert_eq!(s.trail_len(), 0);
    assert_eq!(s.decide(), Some(1));
}

#[test]
fn satisfiable_formula_gets_a_model() {
    let clauses = vec![vec![1, 2], vec![-1, 2], vec![-2, 3], vec![-3, -4, 5], vec![4, -5]];
    let (sat, s) = solve(5, &clauses);
    assert!(sat);
    let s = s.unwrap();
    for c in &clauses {
        assert!(satisfies(&s, c));
    }
    for cr in 0..s.clause_count() {
        assert!(s.clause_literals(cr).is_empty() || s.clause_satisfied(cr));
    }
}

#[test]
fn contradiction_at_level_zero_is_unsatisfiable() {
    let (sat, s) = solve(2, &[vec![1, 2], vec![-1, 2], vec![1, -2], vec![-1, -2]]);
    assert!(!sat);
    assert!(s.is_some());
    let (sat, s) = solve(2, &[vec![1, 2], vec![1, -2], vec![-1]]);
    assert!(!sat);
    assert!(s.is_none());
}

#[test]
fn pigeonhole_is_unsatisfiable() {
    for (p, h) in [(3, 2), (4, 3), (5, 4)] {
        let (nv, cls) = pigeonhole(p, h);
        let (sat, _) = solve(nv, &cls);
        assert!(!sat, "{} pigeons, {} holes", p, h);
    }
    let (nv, cls) = pigeonhole(4, 4);
    let (sat, s) = solve(nv, &cls);
    assert!(sat);
    let s = s.unwrap();
    for c in &cls {
        assert!(satisfies(&s, c));
    }
}

#[test]
fn random_formulas_agree_with_exhaustive_search() {
    let mut seed: u64 = 0x2545_f491_4f6c_dd1d;
    let mut next = move |m: u64| {
        seed ^= seed << 13;
        seed ^= seed >> 7;
        seed ^= seed << 17;
        seed % m
    };
    for _ in 0..400 {
        let nv = 3 + next(6) as u32;
        let m = 2 + next(30) as usize;
        let mut cls = Vec::new();
        for _ in 0..m {
            let len = 2 + next(2) as usize;
            let mut c = Vec::new();
            for _ in 0..len {
                let v = 1 + next(nv as u64) as i32;
                c.push(if next(2) == 0 { v } else { -v });
            }
            cls.push(c);
        }
        let expect = brute_force(nv, &cls);
        let (sat, s) = solve(nv, &cls);
        assert_eq!(sat, expect, "{:?}", cls);
        if sat {
            let s = s.unwrap();
            for c in &cls {
                assert!(satisfies(&s, c));
            }
        }
    }
}

#[test]
fn reduction_deletes_only_idle_learnt_clauses() {
    let (nv, cls) = pigeonhole(6, 5);
    let mut s = load(nv, &cls).unwrap();
    s.fill_heap();
    let originals = s.clause_count();
    let mut conflicts = 0;
    while conflicts < 20 {
        match s.propagate() {
            Some(cr) => {
                assert!(s.decision_level() > 0);
                conflicts += 1;
                let a = s.analyze(cr);
                s.cancel_until(a.btlevel);
                assert!(s.learn_clause(a.learnt));
            }
            None => {
                assert!(s.decide().is_some());
            }
        }
    }
    let learnt = s.learnt_indices();
    assert!(!learnt.is_empty());
    assert!(learnt.iter().all(|&c| c >= originals && s.clause_is_learnt(c)));
    let before: Vec<Vec<u32>> = (0..s.clause_count()).map(|c| s.clause_literals(c).clone()).collect();
    let reasons: Vec<bool> = (0..s.clause_count()).map(|c| s.is_clause_reason(c)).collect();
    let trail = s.trail_literals().clone();
    s.reduce_db(&learnt);
    assert_eq!(s.trail_literals(), &trail);
    let half = learnt.len() / 2;
    for c in 0..s.clause_count() {
        let in_half = learnt[..half].contains(&c);
        if c < originals || !in_half || reasons[c] {
            assert_eq!(s.clause_literals(c), &before[c]);
        } else if s.clause_literals(c).is_empty() {
            assert!(!s.clause_is_learnt(c));
        } else {
            assert!(s.clause_is_learnt(c));
        }
    }
    let (sat, _) = search(s);
    assert!(!sat);
}

#[test]
fn reduction_passes_over_entries_that_are_not_learnt_clauses() {
    let mut s = Solver::new(3);
    s.add_clause(lits(&[1, 2, 3]), false);
    s.add_clause(lits(&[-1, 2, 3]), false);
    s.mark_original_clauses();
    s.fill_heap();
    s.reduce_db(&vec![0, 1, 7, 0]);
    assert_eq!(s.clause_literals(0), &vec![0, 2, 4]);
    assert_eq!(s.clause_literals(1), &vec![1, 2, 4]);
}

#[test]
fn reason_clauses_are_recognised() {
    let mut s = Solver::new(2);
    s.add_clause(lits(&[-1, 2]), false);
    s.mark_original_clauses();
    s.fill_heap();
    assert!(!s.is_clause_reason(0));
    s.set_var_activity(0, 3);
    s.decide();
    assert!(s.propagate().is_none());
    assert_eq!(s.trail_literals(), &vec![1]);
    assert!(!s.is_clause_reason(0));
    s.cancel_until(0);
    assert!(s.learn_clause(vec![0]));
    assert!(s.propagate().is_none());
    assert_eq!(s.trail_literals(), &vec![0, 2]);
    assert!(s.is_clause_reason(0));
    assert_eq!(REASON_UNDEF, u32::MAX);
    assert_eq!(lit_neg(0), 1);
}

#[test]
fn tautologies_may_name_unknown_variables() {
    assert!(fits(2, &lits(&[1, -2])));
    assert!(!fits(2, &lits(&[1, 3])));
    assert!(fits(2, &lits(&[3, 1, -3])));
    assert!(fits(0, &vec![]));
    let mut s = Solver::new(2);
    assert_eq!(s.add_clause(lits(&[3, 1, -3]), false), None);
    assert_eq!(s.clause_count(), 0);
    assert_eq!(s.trail_len(), 0);
}

#[test]
fn loading_stops_at_an_empty_clause() {
    let mut s = Solver::new(3);
    assert!(!s.load_clauses(vec![lits(&[1, 2]), vec![], lits(&[2, 3])]));
    assert_eq!(s.clause_count(), 1);
    assert_eq!(s.num_original_clauses(), 1);
}

#[test]
fn loading_stops_at_a_conflict() {
    let mut s = Solver::new(3);
    assert!(!s.load_clauses(vec![lits(&[1, 2]), lits(&[1, -2]), lits(&[-1]), lits(&[2, 3])]));
    assert_eq!(s.clause_count(), 2);
    assert_eq!(s.num_original_clauses(), 2);
    assert_eq!(s.decision_level(), 0);
}

#[test]
fn loading_stops_at_a_clause_already_false() {
    // [-2] meets x2 already true: the input has no model.
    let mut s = Solver::new(3);
    assert!(!s.load_clauses(vec![lits(&[1]), lits(&[-1, 2]), lits(&[-2]), lits(&[2, 3])]));
    assert_eq!(s.clause_count(), 0);
    assert_eq!(s.trail_literals(), &vec![0, 2]);
}

#[test]
fn loading_adds_and_propagates_every_clause() {
    let mut s = Solver::new(4);
    assert!(s.load_clauses(vec![lits(&[-1, 2]), lits(&[1]), lits(&[3, 4]), lits(&[1, 3])]));
    assert_eq!(s.clause_count(), 2);
    assert_eq!(s.num_original_clauses(), 2);
    assert_eq!(s.trail_literals(), &vec![0, 2]);
    assert!(s.fully_propagated());
}

#[test]
fn a_search_step_decides_then_analyses_a_conflict() {
    let mut s = Solver::new(3);
    assert!(s.load_clauses(vec![lits(&[1, 2]), lits(&[1, -2])]));
    s.fill_heap();
    match s.search_step() {
        Step::Decided(v) => assert_eq!(v, 0),
        _ => panic!("expected a decision"),
    }
    assert_eq!(s.trail_literals(), &vec![1]);
    match s.search_step() {
        Step::Conflict(a) => {
            assert_eq!(a.learnt, vec![0]);
            assert_eq!(a.btlevel, 0);
            assert!(s.backjump_and_learn(a.learnt, a.btlevel));
        }
        _ => panic!("expected a conflict"),
    }
    assert_eq!(s.decision_level(), 0);
    assert_eq!(s.trail_literals(), &vec![0]);
    let mut decided = Vec::new();
    loop {
        match s.search_step() {
            Step::Decided(v) => decided.push(v),
            Step::Sat => break,
            _ => panic!("expected a decision or a model"),
        }
    }
    decided.sort();
    assert_eq!(decided, vec![1, 2]);
    assert_eq!(s.var_value(0), LBOOL_TRUE);
    assert_eq!(s.var_value(1), LBOOL_FALSE);
    assert_eq!(s.var_value(2), LBOOL_FALSE);
    for cr in 0..s.clause_count() {
        assert!(s.clause_literals(cr).is_empty() || s.clause_satisfied(cr));
    }
}

#[test]
fn a_search_step_reports_a_conflict_at_level_zero() {
    let mut s = Solver::new(2);
    s.add_clause(lits(&[1, 2]), false);
    s.add_clause(lits(&[1, -2]), false);
    s.add_clause(lits(&[-1, 2]), false);
    s.add_clause(lits(&[-1, -2]), false);
    s.mark_original_clauses();
    s.fill_heap();
    let mut steps = 0;
    loop {
        steps += 1;
        assert!(steps < 10);
        match s.search_step() {
            Step::Unsat => break,
            Step::Sat => panic!("no model exists"),
            Step::Conflict(a) => {
                let bt = a.btlevel;
                assert!(s.backjump_and_learn(a.learnt, bt));
            }
            Step::Decided(_) => {}
        }
    }
    assert_eq!(s.decision_level(), 0);
}

#[test]
fn a_learnt_clause_is_stored_as_given() {
    let mut s = Solver::new(3);
    s.add_clause(lits(&[1, 2, 3]), false);
    s.mark_original_clauses();
    s.fill_heap();
    assert_eq!(s.decide(), Some(0));
    assert_eq!(s.add_clause(lits(&[2, 1]), true), Some(1));
    assert_eq!(s.clause_literals(1), &vec![2, 0]);
    assert!(s.clause_is_learnt(1));
    assert_eq!(s.trail_literals(), &vec![1]);
}

/// Whether literal `l` is false under the solver's assignment.
fn is_false(s: &Solver, l: u32) -> bool {
    let v = s.var_value(lit_var(l));
    v != LBOOL_UNDEF && (v == LBOOL_TRUE) != (l % 2 == 0)
}

#[test]
fn propagation_leaves_no_unit_clause() {
    let clauses = vec![
        lits(&[1, 2, 3]),
        lits(&[-3, 4, 2]),
        lits(&[-4, 5, 1]),
        lits(&[2, -5, 1]),
        lits(&[-2, 3, 4]),
    ];
    let mut s = Solver::new(5);
    assert!(s.load_clauses(clauses));
    s.fill_heap();
    for _ in 0..3 {
        if s.propagate().is_some() || s.decide().is_none() {
            break;
        }
        if s.propagate().is_some() {
            break;
        }
        for cr in 0..s.clause_count() {
            let c = s.clause_literals(cr).clone();
            let open = c.iter().filter(|&&l| !is_false(&s, l)).count();
            assert!(s.clause_satisfied(cr) || open >= 2, "clause {:?} is unit or false", c);
        }
    }
}

#[test]
fn a_new_solver_starts_with_an_empty_heap() {
    let mut s = Solver::new(3);
    for v in 0..3 {
        assert_eq!(s.var_activity(v), 0);
    }
    assert_eq!(s.decisions(), 0);
    assert_eq!(s.propagations(), 0);
    s.fill_heap();
    assert_eq!(s.decide(), Some(0));
}

#[test]
fn propagated_literals_record_their_reasons() {
    let mut s = Solver::new(3);
    assert_eq!(s.add_clause(lits(&[-1, 2]), false), Some(0));
    assert_eq!(s.add_clause(lits(&[-2, 3]), false), Some(1));
    s.add_clause(lits(&[1]), false);
    assert!(s.propagate().is_none());
    assert_eq!(s.trail_literals(), &vec![0, 2, 4]);
    assert_eq!(s.var_reason(0), REASON_UNDEF);
    assert_eq!(s.var_reason(1), 0);
    assert_eq!(s.var_reason(2), 1);
    for v in 0..3 {
        assert_eq!(s.var_value(v), LBOOL_TRUE);
        assert_eq!(s.var_level(v), 0);
    }
    assert_eq!(s.clause_literals(0)[0], 2);
    assert_eq!(s.clause_literals(1)[0], 4);
}

#[test]
fn equal_activities_are_decided_in_variable_order() {
    let mut s = Solver::new(2);
    s.add_clause(lits(&[1, 2]), false);
    s.mark_original_clauses();
    s.fill_heap();
    assert_eq!(s.decide(), Some(0));
    assert!(s.propagate().is_none());
    assert_eq!(s.var_value(0), LBOOL_FALSE);
    assert_eq!(s.var_value(1), LBOOL_TRUE);
    assert_eq!(s.var_reason(1), 0);
    assert_eq!(s.var_level(1), 1);
}

#[test]
fn backjumping_clears_the_reasons_of_unassigned_variables() {
    let mut s = Solver::new(3);
    s.add_clause(lits(&[1, 2]), false);
    s.add_clause(lits(&[1, 2, 3]), false);
    s.mark_original_clauses();
    s.fill_heap();
    assert_eq!(s.decide(), Some(0));
    assert!(s.propagate().is_none());
    assert_eq!(s.var_reason(1), 0);
    s.cancel_until(0);
    assert_eq!(s.var_value(1), LBOOL_UNDEF);
    assert_eq!(s.var_reason(1), REASON_UNDEF);
    assert_eq!(s.trail_len(), 0);
}

#[test]
fn a_search_on_one_binary_clause_decides_the_first_variable() {
    let mut s = Solver::new(2);
    assert_eq!(s.add_clause(lits(&[1, 2]), false), Some(0));
    s.mark_original_clauses();
    let (sat, s) = search(s);
    assert!(sat);
    assert_eq!(s.var_value(0), LBOOL_FALSE);
    assert_eq!(s.var_value(1), LBOOL_TRUE);
}
