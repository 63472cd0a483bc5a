use reo_rs::var::Var;
use reo_rs::var::Var::{F, T, X};
use reo_rs::state_set::StateSet;
use reo_rs::rule::AbstractRule;
use reo_rs::rbpa::{project, Rbpa, StateMask};
use reo_rs::port_set::PortSet;
use reo_rs::pair_test::{pair_test, PairOutcome, PAIR_TEST_STEPS};
use std::cmp::Ordering;

fn ss(vars: &[Var]) -> StateSet {
    StateSet::from_vars(vars)
}

fn vars(s: &StateSet) -> Vec<Var> {
    s.iter()
}

fn rule(guard: &[Var], port: Option<usize>, assign: &[Var], ids: Vec<usize>) -> AbstractRule {
    AbstractRule::new(ss(guard), port, ss(assign), ids)
}

fn example() -> Rbpa {
    Rbpa::new(
        StateMask::new([true; 3]),
        vec![
            rule(&[X, X, F], Some(1), &[X, X, T], vec![0]),
            rule(&[X, F, T], Some(1), &[X, T, F], vec![1]),
            rule(&[F, T, T], Some(3), &[T, F, F], vec![2]),
            rule(&[T, T, T], Some(4), &[F, F, F], vec![3]),
        ],
    )
}

fn ports(ids: &[usize]) -> PortSet {
    PortSet::from_ports(ids)
}

#[test]
fn var_specificity() {
    assert!(X.is_generic());
    assert!(T.is_specific());
    assert!(!X.is_specific());
    assert!(T.mismatches(F));
    assert!(!T.mismatches(X));
    assert!(!X.mismatches(F));
    assert!(!F.mismatches(F));
    assert_eq!(X.partial_cmp(&T), Some(Ordering::Less));
    assert_eq!(F.partial_cmp(&X), Some(Ordering::Greater));
    assert_eq!(T.partial_cmp(&T), Some(Ordering::Equal));
    assert_eq!(T.partial_cmp(&F), None);
    assert!(X < T);
    assert_eq!(-T, F);
    assert_eq!(-F, T);
    assert_eq!(-X, X);
}

#[test]
fn state_set_order() {
    assert_eq!(ss(&[X, T, F]).partial_cmp(&ss(&[T, T, F])), Some(Ordering::Less));
    assert_eq!(ss(&[T, T, F]).partial_cmp(&ss(&[X, T, F])), Some(Ordering::Greater));
    assert_eq!(ss(&[X, T, F]).partial_cmp(&ss(&[X, T, F])), Some(Ordering::Equal));
    assert_eq!(ss(&[X, T]).partial_cmp(&ss(&[T, X])), None);
    assert_eq!(ss(&[T, F]).partial_cmp(&ss(&[T, T])), None);
    // only the shared positions count
    assert_eq!(ss(&[X]).partial_cmp(&ss(&[T, F])), Some(Ordering::Less));
    assert!(ss(&[T, F]) == ss(&[T, F]));
    assert!(ss(&[T, F]) != ss(&[T, X]));
}

#[test]
fn state_set_make_specific_and_sisters() {
    let mut s = ss(&[X, T, X]);
    s.make_specific_wrt(&ss(&[F, F, X]));
    assert_eq!(vars(&s), vec![F, T, X]);
    let sis = ss(&[T, X, F]).sisters();
    assert_eq!(sis.len(), 2);
    assert_eq!(vars(&sis[0]), vec![F, X, F]);
    assert_eq!(vars(&sis[1]), vec![T, X, T]);
    let mut t = ss(&[T, T, T]);
    t.set(1, X);
    assert_eq!(t.get(1), X);
    assert_eq!(t.len(), 3);
}

#[test]
fn rule_new_specifies_assignment() {
    let r = rule(&[T, X, F], None, &[X, X, T], vec![7]);
    assert_eq!(vars(r.assign()), vec![T, X, T]);
    assert_eq!(vars(r.guard()), vec![T, X, F]);
    assert_eq!(r.port(), None);
    assert_eq!(r.ids(), &vec![7]);
    assert!(r.is_silent());
}

#[test]
fn rule_apply() {
    let r = rule(&[X, F, T], Some(1), &[X, T, F], vec![1]);
    let out = r.apply(&ss(&[T, F, T])).expect("guard holds");
    assert_eq!(vars(&out), vec![T, T, F]);
    assert!(r.apply(&ss(&[T, T, T])).is_none());
    // a generic state variable satisfies any guard
    let out2 = r.apply(&ss(&[F, X, X])).expect("guard holds");
    assert_eq!(vars(&out2), vec![F, T, F]);
}

#[test]
fn rule_no_effect() {
    assert!(rule(&[T, X, F], None, &[T, X, F], vec![]).no_effect());
    assert!(!rule(&[T, X, F], Some(2), &[T, X, F], vec![]).no_effect());
    assert!(!rule(&[T, X, F], None, &[F, X, F], vec![]).no_effect());
    assert!(!rule(&[T, X, F], None, &[T, T, F], vec![]).no_effect());
}

#[test]
fn rule_compose() {
    let silent = rule(&[F, T, T], None, &[T, F, F], vec![2]);
    let next = rule(&[X, X, F], Some(1), &[X, X, T], vec![0]);
    assert!(silent.can_precede(&next));
    let c = silent.compose(&next).expect("composable");
    assert_eq!(vars(c.guard()), vec![F, T, T]);
    assert_eq!(vars(c.assign()), vec![T, F, T]);
    assert_eq!(c.port(), Some(1));
    assert_eq!(c.ids(), &vec![0]);
    // the assignment of the first contradicts the guard of the second
    let blocked = rule(&[X, F, T], Some(1), &[X, T, F], vec![1]);
    assert!(!silent.can_precede(&blocked));
    assert!(silent.compose(&blocked).is_none());
    // two ports cannot be composed
    assert!(next.compose(&next).is_none());
    // the composition of a generic first rule takes the guard of the second
    let first = rule(&[X, X, X], None, &[X, X, X], vec![5]);
    let c2 = first.compose(&blocked).expect("composable");
    assert_eq!(vars(c2.guard()), vec![X, F, T]);
}

#[test]
fn rule_merge() {
    // {T->T, F->T} give X->T
    let a = rule(&[T, F], Some(1), &[T, T], vec![1]);
    let b = rule(&[F, F], Some(1), &[T, T], vec![2]);
    let m = a.try_merge(&b).expect("mergeable");
    assert_eq!(vars(m.guard()), vec![X, F]);
    assert_eq!(vars(m.assign()), vec![T, T]);
    assert_eq!(m.ids(), &vec![1, 2]);
    // the first subsumes the second
    let gen = rule(&[X, T], Some(1), &[X, T], vec![3]);
    let spec = rule(&[F, T], Some(1), &[F, T], vec![4]);
    let m2 = gen.try_merge(&spec).expect("mergeable");
    assert_eq!(m2.ids(), &vec![3]);
    let m3 = spec.try_merge(&gen).expect("mergeable");
    assert_eq!(m3.ids(), &vec![3]);
    // guards that differ twice do not merge
    let c = rule(&[T, F], Some(1), &[T, T], vec![5]);
    let d = rule(&[F, T], Some(1), &[T, T], vec![6]);
    assert!(c.try_merge(&d).is_none());
}

#[test]
fn mask_state() {
    let m = StateMask::new([true, false, true]);
    assert_eq!(vars(&m.mask(ss(&[T, F, T]))), vec![T, X, T]);
    assert!(m.relevant(0));
    assert!(!m.relevant(1));
}

#[test]
fn rbpa_merge_and_mask() {
    let mut r = Rbpa::new(
        StateMask::new([true; 3]),
        vec![
            rule(&[T, X, X], Some(1), &[T, X, F], vec![1]),
            rule(&[F, X, X], Some(1), &[F, X, F], vec![2]),
        ],
    );
    assert_eq!(r.first_silent_idx(), None);
    // positions 1 and 2 are specified by no guard
    assert!(r.mask_irrelevant_vars());
    assert!(r.mask().relevant(0));
    assert!(!r.mask().relevant(1));
    assert!(!r.mask().relevant(2));
    assert_eq!(vars(r.rules()[0].assign()), vec![T, X, X]);
    assert!(!r.mask_irrelevant_vars());
    // now the two rules are T->T and F->F: not mergeable
    assert!(!r.merge_rules());
    assert_eq!(r.rules().len(), 2);

    let mut r2 = Rbpa::new(
        StateMask::new([true; 3]),
        vec![
            rule(&[T, T, T], Some(1), &[F, F, F], vec![1]),
            rule(&[T, T, T], None, &[T, T, T], vec![2]),
            rule(&[F, T, T], Some(1), &[F, F, F], vec![3]),
        ],
    );
    assert_eq!(r2.first_silent_idx(), Some(1));
    assert!(r2.merge_rules());
    assert_eq!(r2.rules().len(), 2);
    assert_eq!(vars(r2.rules()[0].guard()), vec![X, T, T]);
    assert_eq!(r2.rules()[0].ids(), &vec![1, 3]);
}

#[test]
fn normalize_drops_rule_without_effect() {
    let mut r = Rbpa::new(
        StateMask::new([true; 3]),
        vec![
            rule(&[T, X, F], None, &[T, X, F], vec![0]),
            rule(&[F, T, T], Some(1), &[T, T, T], vec![1]),
        ],
    );
    r.normalize();
    assert_eq!(r.rules().len(), 1);
    assert_eq!(r.rules()[0].port(), Some(1));
}

#[test]
fn project_example() {
    let p = project(example(), ports(&[1, 2]));
    let rules = p.rules();
    assert_eq!(rules.len(), 4);
    for r in rules.iter() {
        assert_eq!(r.port(), Some(1));
    }
    assert_eq!(vars(rules[0].guard()), vec![X, X, F]);
    assert_eq!(vars(rules[1].guard()), vec![X, F, T]);
    assert_eq!(vars(rules[2].guard()), vec![F, T, T]);
    assert_eq!(vars(rules[2].assign()), vec![T, F, T]);
    assert_eq!(rules[2].ids(), &vec![0]);
    assert_eq!(vars(rules[3].guard()), vec![T, T, T]);
    assert_eq!(vars(rules[3].assign()), vec![F, F, T]);
    assert!(p.mask().relevant(0) && p.mask().relevant(1) && p.mask().relevant(2));
}

#[test]
fn project_hides_everything() {
    // with no atomic ports every rule becomes silent and is eliminated
    let p = project(example(), ports(&[]));
    assert_eq!(p.rules().len(), 0);
}

#[test]
fn pair_test_example_completes() {
    let atomic = project(example(), ports(&[1, 2]));
    let report = pair_test(ss(&[F, F, F]), example(), atomic, ports(&[1, 2]));
    assert_eq!(report.outcome, PairOutcome::Completed);
    assert_eq!(report.proto.len(), PAIR_TEST_STEPS);
    assert_eq!(vars(&report.start), vec![F, F, F]);
    // the first step can only be the first rule
    assert_eq!(report.proto[0].port, Some(1));
    assert_eq!(vars(&report.proto[0].state), vec![F, F, T]);
    assert_eq!(vars(&report.atomic[0].state), vec![F, F, T]);
    assert_eq!(report.atomic[0].proto_index, 0);
    for s in report.atomic.iter() {
        assert_eq!(s.port, 1);
    }
}

#[test]
fn pair_test_unprojected_fails_to_match() {
    // an automaton without rules cannot simulate the first step
    let empty = Rbpa::new(StateMask::new([true; 3]), vec![]);
    let report = pair_test(ss(&[F, F, F]), example(), empty, ports(&[1]));
    assert_eq!(report.outcome, PairOutcome::FailedToMatch);
    assert_eq!(report.proto.len(), 1);
    assert!(report.atomic.is_empty());
}

#[test]
fn pair_test_stuck() {
    let only = Rbpa::new(StateMask::new([true; 3]), vec![rule(&[T, X, X], Some(1), &[F, X, X], vec![0])]);
    let report = pair_test(ss(&[T, T, T]), only, Rbpa::new(StateMask::new([true; 3]), vec![]), ports(&[]));
    assert_eq!(report.outcome, PairOutcome::Stuck);
    assert_eq!(report.proto.len(), 1);
    assert_eq!(vars(&report.proto[0].state), vec![F, T, T]);
}

#[test]
fn port_set_membership() {
    let p = ports(&[3, 5, 3]);
    assert!(p.has(3));
    assert!(p.has(5));
    assert!(!p.has(4));
    assert!(!ports(&[]).has(0));
}

fn all_concrete_states() -> Vec<StateSet> {
    let mut out = Vec::new();
    for a in [T, F] {
        for b in [T, F] {
            for c in [T, F] {
                out.push(ss(&[a, b, c]));
            }
        }
    }
    out
}

fn same(a: &Option<StateSet>, b: &Option<StateSet>) -> bool {
    match (a, b) {
        (Some(x), Some(y)) => x == y,
        (None, None) => true,
        _ => false,
    }
}

#[test]
fn law_compose_sequencing_on_examples() {
    let rules = [
        rule(&[F, T, T], None, &[T, F, F], vec![2]),
        rule(&[X, X, F], Some(1), &[X, X, T], vec![0]),
        rule(&[X, X, X], None, &[T, X, X], vec![4]),
        rule(&[T, X, X], Some(2), &[X, F, X], vec![5]),
    ];
    for r1 in rules.iter() {
        for r2 in rules.iter() {
            if let Some(c) = r1.compose(r2) {
                for s in all_concrete_states() {
                    let seq = r1.apply(&s).and_then(|t| r2.apply(&t));
                    assert!(same(&c.apply(&s), &seq));
                }
            }
        }
    }
}

#[test]
fn law_merge_on_examples() {
    let a = rule(&[T, F, X], Some(1), &[T, T, X], vec![1]);
    let b = rule(&[F, F, X], Some(1), &[F, T, X], vec![2]);
    let c = rule(&[X, F, X], Some(1), &[X, T, X], vec![3]);
    // incomparable guards with one assignment
    let d = rule(&[T, F, T], Some(1), &[F, F, F], vec![4]);
    let e = rule(&[F, F, T], Some(1), &[F, F, F], vec![5]);
    let pairs = [(&a, &c), (&c, &a), (&b, &c), (&d, &e), (&e, &d)];
    for (r1, r2) in pairs.iter() {
        let m = r1.try_merge(r2).expect("mergeable");
        assert_eq!(m.port(), r1.port());
        for s in all_concrete_states() {
            let (x1, x2, xm) = (r1.apply(&s), r2.apply(&s), m.apply(&s));
            assert_eq!(xm.is_some(), x1.is_some() || x2.is_some());
            if x1.is_some() {
                assert!(same(&xm, &x1));
            }
            if x2.is_some() {
                assert!(same(&xm, &x2));
            }
        }
    }
    // the merge of the split pair is the rule with that variable generic
    let m = d.try_merge(&e).unwrap();
    assert_eq!(vars(m.guard()), vec![X, F, T]);
    assert_eq!(vars(m.assign()), vec![F, F, F]);
    assert_eq!(m.ids(), &vec![4, 5]);
}

#[test]
fn merge_refuses_pairs_one_rule_cannot_stand_for() {
    // the generic identity does not stand for a rule that sets a variable
    let id = rule(&[X, X, X], None, &[X, X, X], vec![0]);
    let set = rule(&[F, X, X], None, &[F, T, X], vec![1]);
    assert!(id.try_merge(&set).is_none());
    assert!(set.try_merge(&id).is_none());
    assert!(!id.covers(&set));
    // rules on different ports never merge
    let on1 = rule(&[X, X, X], Some(1), &[X, X, X], vec![2]);
    let on2 = rule(&[X, X, X], Some(2), &[X, X, X], vec![3]);
    assert!(on1.try_merge(&on2).is_none());
    assert!(!on1.covers(&on2));
    // a rule that fixes a variable to the value its guard requires is covered
    let keep = rule(&[X, T, X], Some(1), &[X, T, X], vec![4]);
    assert!(on1.covers(&keep));
    let m = on1.try_merge(&keep).unwrap();
    assert_eq!(m.ids(), &vec![2]);
    // two rules with one guard and different assignments do not merge
    let to_t = rule(&[T, X, X], Some(1), &[T, T, X], vec![5]);
    let to_f = rule(&[T, X, X], Some(1), &[T, F, X], vec![6]);
    assert!(to_t.try_merge(&to_f).is_none());
    // guards that differ in two variables do not merge
    let g1 = rule(&[T, T, X], Some(1), &[F, F, X], vec![7]);
    let g2 = rule(&[F, F, X], Some(1), &[F, F, X], vec![8]);
    assert!(g1.try_merge(&g2).is_none());
}

#[test]
fn law_no_effect_on_examples() {
    let r = rule(&[T, X, F], None, &[T, X, F], vec![0]);
    assert!(r.no_effect());
    for s in all_concrete_states() {
        if let Some(t) = r.apply(&s) {
            assert!(t == s);
        }
    }
}

#[test]
fn law_normal_form_after_project() {
    let mut p = project(example(), ports(&[1, 2]));
    assert_eq!(p.first_silent_idx(), None);
    assert!(!p.mask_irrelevant_vars());
    assert!(!p.merge_rules());
    for r in p.rules().iter() {
        // the rule invariant: a generic assignment comes with a generic guard
        for i in 0..3 {
            if r.assign().get(i) == X {
                assert_eq!(r.guard().get(i), X);
            }
        }
    }
}

#[test]
fn clones_keep_contents() {
    let r = example();
    let c = r.clone();
    assert_eq!(c.rules().len(), 4);
    for (a, b) in r.rules().iter().zip(c.rules().iter()) {
        assert!(a.guard() == b.guard());
        assert!(a.assign() == b.assign());
        assert_eq!(a.port(), b.port());
        assert_eq!(a.ids(), b.ids());
    }
    let s = ss(&[T, X, F]);
    assert!(s.clone() == s);
    let m = StateMask::new([true, false, true]);
    assert!(!m.clone().relevant(1));
}

#[test]
fn short_rules_at_irrelevant_positions() {
    // rules of two variables, with the third position already irrelevant
    let mut r = Rbpa::new(
        StateMask::new([true, true, false]),
        vec![rule(&[X, T], Some(1), &[F, F], vec![0]), rule(&[X, F], Some(2), &[X, T], vec![1])],
    );
    assert!(r.mask_irrelevant_vars());
    assert!(!r.mask().relevant(0));
    assert!(r.mask().relevant(1));
    assert_eq!(vars(r.rules()[0].assign()), vec![X, F]);
    // masking again changes nothing
    assert!(!r.mask_irrelevant_vars());
    assert_eq!(vars(r.rules()[0].assign()), vec![X, F]);
    let p = project(r, ports(&[1]));
    assert_eq!(p.rules().len(), 1);
    assert_eq!(p.rules()[0].port(), Some(1));
}

#[test]
fn text_forms() {
    assert_eq!(ss(&[T, F, X]).text(), "TFX");
    assert_eq!(StateMask::new([true, false, true]).text(), "101");
    let r = rule(&[X, X, F], Some(1), &[X, X, T], vec![0]);
    assert_eq!(r.text(), "XXF =1=> XXT ids: [0,]");
    let s = rule(&[F, T, T], None, &[T, F, F], vec![12, 3]);
    assert_eq!(s.text(), "FTT =.=> TFF ids: [12,3,]");
    let big = rule(&[T], Some(1205), &[F], vec![]);
    assert_eq!(big.text(), "T =1205=> F ids: []");
    assert_eq!(reo_rs::text::decimal_string(0), "0");
    assert_eq!(reo_rs::text::decimal_string(907), "907");
}

#[test]
fn masking_reads_no_further_than_the_first_specific_guard() {
    // the second rule is too short to be read, and is not read: the first
    // rule specifies every position
    let mut r = Rbpa::new(
        StateMask::new([true; 3]),
        vec![rule(&[T, F, T], Some(1), &[F, F, F], vec![0]), rule(&[X], Some(2), &[T], vec![1])],
    );
    assert!(!r.mask_irrelevant_vars());
    assert!(r.mask().relevant(0) && r.mask().relevant(1) && r.mask().relevant(2));
}
