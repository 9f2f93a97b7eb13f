use polite_c::borrowck::{
    saturate_requires, saturate_requires_within, saturate_subsets, saturate_subsets_within,
    stabilize_requires, stabilize_subsets, BorrowChecker, BorrowCheckerInputs, ResourceExhausted,
    Violation,
};

fn empty_inputs() -> BorrowCheckerInputs {
    BorrowCheckerInputs {
        cfg_edges: vec![],
        base_subsets: vec![],
        borrow_regions: vec![],
        regions_live_at: vec![],
        kills: vec![],
        invalidates: vec![],
    }
}

/// Points 0..=3 in a line, loan 0 created in region 0 at point 0, region 0
/// live at points 1 and 2.
fn straight_line() -> BorrowCheckerInputs {
    BorrowCheckerInputs {
        cfg_edges: vec![(0, 1), (1, 2), (2, 3)],
        base_subsets: vec![],
        borrow_regions: vec![(0, 0, 0)],
        regions_live_at: vec![(0, 1), (0, 2)],
        kills: vec![],
        invalidates: vec![],
    }
}

#[test]
fn basic() {
    assert_eq!(BorrowChecker::check(empty_inputs()), Ok(()));
}

#[test]
fn transitivity_closure() {
    let s = saturate_subsets(&vec![(0, 1, 0), (1, 2, 0)], &vec![]);
    assert!(s.contains(&(0, 2, 0)));
    assert_eq!(s.len(), 3);
}

#[test]
fn subsets_propagate_along_edges() {
    let s = saturate_subsets(&vec![(0, 1, 0)], &vec![(0, 1), (1, 2)]);
    assert!(s.contains(&(0, 1, 1)));
    assert!(s.contains(&(0, 1, 2)));
    assert_eq!(s.len(), 3);
}

#[test]
fn transitivity_after_propagation() {
    // (0,1) holds at point 0 and (1,2) at point 1: both meet at point 1
    let s = saturate_subsets(&vec![(0, 1, 0), (1, 2, 1)], &vec![(0, 1)]);
    assert!(s.contains(&(0, 2, 1)));
    assert!(!s.contains(&(0, 2, 0)));
}

#[test]
fn a_pass_only_adds() {
    let mut s = vec![(0, 1, 0), (1, 2, 0)];
    let before = s.clone();
    let stable = stabilize_subsets(&mut s, &vec![(0, 1)]);
    assert!(!stable);
    assert_eq!(&s[..before.len()], &before[..]);
    assert!(s.len() > before.len());
    let mut again = s.clone();
    stabilize_subsets(&mut again, &vec![(0, 1)]);
    assert_eq!(&again[..s.len()], &s[..]);
}

#[test]
fn saturation_is_idempotent() {
    let edges = vec![(0, 1), (1, 2), (2, 0)];
    let s = saturate_subsets(&vec![(0, 1, 0), (1, 2, 1), (2, 3, 2)], &edges);
    assert_eq!(saturate_subsets(&s, &edges), s);
    let mut t = s.clone();
    assert!(stabilize_subsets(&mut t, &edges));
    assert_eq!(t, s);
    let r = saturate_requires(&vec![(0, 7, 0)], &s, &edges, &vec![]);
    assert_eq!(saturate_requires(&r, &s, &edges, &vec![]), r);
}

#[test]
fn duplicate_base_tuples_are_kept_once() {
    let s = saturate_subsets(&vec![(0, 1, 0), (0, 1, 0)], &vec![]);
    assert_eq!(s, vec![(0, 1, 0)]);
}

#[test]
fn requires_follow_subsets() {
    let r = saturate_requires(&vec![(0, 5, 0)], &vec![(0, 1, 0), (1, 2, 0)], &vec![], &vec![]);
    assert!(r.contains(&(1, 5, 0)));
    assert!(r.contains(&(2, 5, 0)));
    assert_eq!(r.len(), 3);
}

#[test]
fn requires_pass_reports_stability() {
    let mut r = vec![(0, 0, 0)];
    assert!(!stabilize_requires(&mut r, &vec![], &vec![(0, 1)], &vec![]));
    assert_eq!(r, vec![(0, 0, 0), (0, 0, 1)]);
    assert!(stabilize_requires(&mut r, &vec![], &vec![(0, 1)], &vec![]));
}

#[test]
fn straight_line_no_violation() {
    let inputs = straight_line();
    let bc = BorrowChecker::new(inputs.clone());
    assert!(bc.required.contains(&(0, 0, 1)));
    assert!(bc.required.contains(&(0, 0, 2)));
    assert!(bc.required.contains(&(0, 0, 3)));
    assert_eq!(BorrowChecker::check(inputs), Ok(()));
}

#[test]
fn live_loan_violation() {
    let mut inputs = straight_line();
    inputs.invalidates = vec![(2, 0)];
    let bc = BorrowChecker::new(inputs.clone());
    assert!(bc.required.contains(&(0, 0, 2)));
    assert!(bc.loan_live_at(0, 2));
    assert!(bc.error(2));
    assert!(!bc.error(1));
    assert_eq!(
        BorrowChecker::check(inputs),
        Err(vec![Violation { point: 2, loan: 0 }])
    );
}

#[test]
fn kill_cuts_propagation() {
    let mut inputs = straight_line();
    inputs.invalidates = vec![(2, 0)];
    inputs.kills = vec![(0, 1)];
    let bc = BorrowChecker::new(inputs.clone());
    assert!(bc.required.contains(&(0, 0, 1)));
    assert!(!bc.required.contains(&(0, 0, 2)));
    assert!(!bc.loan_live_at(0, 2));
    assert_eq!(BorrowChecker::check(inputs), Ok(()));
}

#[test]
fn no_invalidation_succeeds() {
    let inputs = BorrowCheckerInputs {
        cfg_edges: vec![(0, 1), (1, 0)],
        base_subsets: vec![(0, 1, 0), (1, 0, 1)],
        borrow_regions: vec![(0, 0, 0), (1, 1, 1)],
        regions_live_at: vec![(0, 0), (0, 1), (1, 0), (1, 1)],
        kills: vec![],
        invalidates: vec![],
    };
    assert_eq!(BorrowChecker::check(inputs), Ok(()));
}

#[test]
fn dead_region_is_no_violation() {
    let mut inputs = straight_line();
    inputs.invalidates = vec![(3, 0)];
    assert_eq!(BorrowChecker::check(inputs), Ok(()));
}

#[test]
fn violations_are_collected_once_each() {
    let mut inputs = straight_line();
    inputs.borrow_regions = vec![(0, 0, 0), (0, 1, 0)];
    inputs.invalidates = vec![(2, 0), (1, 1), (2, 0), (3, 1)];
    assert_eq!(
        BorrowChecker::check(inputs),
        Err(vec![
            Violation { point: 2, loan: 0 },
            Violation { point: 1, loan: 1 },
        ])
    );
}

#[test]
fn loan_flows_into_a_live_region() {
    // loan 0 lives in region 0, which flows into region 1; only region 1 is live
    let inputs = BorrowCheckerInputs {
        cfg_edges: vec![(0, 1)],
        base_subsets: vec![(0, 1, 0)],
        borrow_regions: vec![(0, 0, 0)],
        regions_live_at: vec![(1, 1)],
        kills: vec![],
        invalidates: vec![(1, 0)],
    };
    assert_eq!(
        BorrowChecker::check(inputs),
        Err(vec![Violation { point: 1, loan: 0 }])
    );
}

#[test]
fn budget_large_enough() {
    let mut inputs = straight_line();
    inputs.invalidates = vec![(2, 0)];
    // the loan reaches point 3 on the third pass; the fourth finds nothing new
    assert_eq!(
        BorrowChecker::check_within(inputs.clone(), 4),
        Ok(Err(vec![Violation { point: 2, loan: 0 }]))
    );
    assert_eq!(
        BorrowChecker::check_within(inputs.clone(), 100),
        Ok(BorrowChecker::check(inputs))
    );
}

#[test]
fn budget_exhausted() {
    let mut inputs = straight_line();
    inputs.invalidates = vec![(2, 0)];
    assert_eq!(BorrowChecker::check_within(inputs.clone(), 3), Err(ResourceExhausted));
    assert_eq!(BorrowChecker::check_within(inputs, 0), Err(ResourceExhausted));
}

#[test]
fn budgeted_saturation() {
    let base = vec![(0, 1, 0)];
    let edges = vec![(0, 1), (1, 2)];
    assert_eq!(saturate_subsets_within(&base, &edges, 2), Err(ResourceExhausted));
    assert_eq!(saturate_subsets_within(&base, &edges, 3), Ok(saturate_subsets(&base, &edges)));
    let r = saturate_requires_within(&vec![(0, 0, 0)], &vec![], &edges, &vec![], 3).unwrap();
    assert_eq!(r, vec![(0, 0, 0), (0, 0, 1), (0, 0, 2)]);
    assert_eq!(
        saturate_requires_within(&vec![(0, 0, 0)], &vec![], &edges, &vec![], 2),
        Err(ResourceExhausted)
    );
}
