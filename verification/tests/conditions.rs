use fsrng::{check_flags, check_flags_reporting};
use fsrng::data::models::{
    BasicInfo, Condition, ConditionBranch, ConditionEnd, ConditionNode, ConfigOption, FlagCheck,
    Objective, ObjectiveInfo,
};
use fsrng::conditions::{
    resolve_branch, resolve_branch_reporting, resolve_condition, resolve_node,
};
use fsrng::filter_objectives;

fn option(id: &str) -> ConfigOption {
    ConfigOption {
        id: id.to_string(),
        info: BasicInfo { name: format!("{} name", id), description: format!("{} text", id) },
    }
}

fn check(clause: &str, ids: &[&str]) -> FlagCheck {
    FlagCheck { clause: clause.to_string(), flag_ids: ids.iter().map(|s| s.to_string()).collect() }
}

fn objective(id: &str, flag_checks: Option<Vec<FlagCheck>>, condition: Option<Condition>) -> Objective {
    Objective {
        id: id.to_string(),
        info: ObjectiveInfo { name: id.to_uppercase(), location: format!("{} place", id) },
        flag_checks,
        weighting: None,
        routes: None,
        condition,
    }
}

#[test]
fn any_clause_needs_one_selected_flag() {
    let flags = vec![option("a")];
    assert!(check_flags(&[check("any", &["b", "a"])], &flags));
    assert!(!check_flags(&[check("any", &["b", "c"])], &flags));
    assert!(!check_flags(&[check("any", &[])], &flags));
}

#[test]
fn all_clause_needs_every_flag() {
    let flags = vec![option("a"), option("b")];
    assert!(check_flags(&[check("all", &["a", "b"])], &flags));
    assert!(!check_flags(&[check("all", &["a", "c"])], &flags));
    assert!(check_flags(&[check("all", &[])], &flags));
}

#[test]
fn none_clause_needs_no_flag() {
    let flags = vec![option("a")];
    assert!(check_flags(&[check("none", &["b"])], &flags));
    assert!(!check_flags(&[check("none", &["b", "a"])], &flags));
}

#[test]
fn unknown_clause_is_skipped() {
    let flags = vec![option("a")];
    assert!(check_flags(&[check("sometimes", &["z"])], &flags));
    assert!(!check_flags(&[check("sometimes", &["z"]), check("any", &["z"])], &flags));
}

#[test]
fn every_check_must_pass() {
    let flags = vec![option("a"), option("b")];
    assert!(check_flags(&[check("any", &["a"]), check("none", &["c"])], &flags));
    assert!(!check_flags(&[check("any", &["a"]), check("none", &["b"])], &flags));
    assert!(check_flags(&[], &flags));
    assert!(check_flags(&[], &[]));
}

#[test]
fn filter_keeps_allowed_objectives_in_order() {
    let flags = vec![option("hard")];
    let objectives = vec![
        objective("one", None, None),
        objective("two", Some(vec![check("none", &["hard"])]), None),
        objective("three", Some(vec![check("any", &["hard"])]), None),
        objective("four", Some(vec![]), None),
    ];
    let kept: Vec<String> =
        filter_objectives(&flags, objectives).into_iter().map(|o| o.id).collect();
    assert_eq!(kept, vec!["one", "three", "four"]);
}

#[test]
fn filter_of_nothing_is_nothing() {
    assert!(filter_objectives(&[option("a")], Vec::new()).is_empty());
}

#[test]
fn conditions_build() {
    // A branch holding nodes and an end, as the data files write them.
    let c = Condition::Branch(ConditionBranch {
        clause: "any".to_string(),
        labels: None,
        flag_checks: None,
        conditions: vec![
            Condition::Node(ConditionNode { objective_id: Some("a".to_string()), labels: None, flag_checks: None }),
            Condition::End(ConditionEnd),
        ],
    });
    match c {
        Condition::Branch(b) => assert_eq!(b.conditions.len(), 2),
        _ => unreachable!(),
    }
}

#[test]
fn unknown_clause_is_reported() {
    let (passed, unknown) = check_flags_reporting(&[check("ALL", &["x"])], &[]);
    assert!(passed);
    assert_eq!(unknown, vec!["ALL".to_string()]);
}

#[test]
fn reports_stop_at_the_first_failing_check() {
    let flags = vec![option("a")];
    let (passed, unknown) = check_flags_reporting(
        &[check("odd", &[]), check("any", &["a"]), check("even", &[]), check("none", &["a"]), check("late", &[])],
        &flags,
    );
    assert!(!passed);
    assert_eq!(unknown, vec!["odd".to_string(), "even".to_string()]);
    let (passed, unknown) = check_flags_reporting(&[check("any", &["a"])], &flags);
    assert!(passed);
    assert!(unknown.is_empty());
}

fn node(id: &str) -> Condition {
    Condition::Node(ConditionNode { objective_id: Some(id.to_string()), labels: None, flag_checks: None })
}

fn branch_of(clause: &str, ids: &[&str]) -> ConditionBranch {
    ConditionBranch { clause: clause.to_string(), labels: None, flag_checks: None, conditions: ids.iter().map(|id| node(id)).collect() }
}

fn done(ids: &[&str]) -> Vec<String> {
    ids.iter().map(|s| s.to_string()).collect()
}

#[test]
fn all_is_stronger_than_any_two_stronger_than_any() {
    let ids = ["a", "b", "c"];
    for completed in [done(&[]), done(&["a"]), done(&["a", "b"]), done(&["a", "b", "c"])] {
        let all = resolve_branch(&[], &branch_of("all", &ids), &completed, 4);
        let two = resolve_branch(&[], &branch_of("any_two", &ids), &completed, 4);
        let any = resolve_branch(&[], &branch_of("any", &ids), &completed, 4);
        assert!(!all || two);
        assert!(!two || any);
        assert_eq!(all, completed.len() == 3);
        assert_eq!(two, completed.len() >= 2);
        assert_eq!(any, completed.len() >= 1);
    }
    assert!(!resolve_branch(&[], &branch_of("most", &ids), &done(&["a", "b", "c"]), 4));
}

#[test]
fn completing_more_never_closes_a_node() {
    let n = ConditionNode { objective_id: Some("b".to_string()), labels: None, flag_checks: None };
    assert!(!resolve_node(&[], &n, &done(&["a"])));
    assert!(resolve_node(&[], &n, &done(&["a", "b"])));
    let open = ConditionNode { objective_id: None, labels: None, flag_checks: None };
    assert!(resolve_node(&[], &open, &done(&[])));
    let gated = ConditionNode { objective_id: None, labels: None, flag_checks: Some(vec![check("all", &["x"])]) };
    assert!(!resolve_node(&[], &gated, &done(&["a"])));
    assert!(resolve_node(&[option("x")], &gated, &done(&[])));
}

#[test]
fn end_holds_with_one_objective_left() {
    let end = Condition::End(ConditionEnd);
    assert!(resolve_condition(&[], &end, &done(&["a", "b"]), 3));
    assert!(!resolve_condition(&[], &end, &done(&["a"]), 3));
}

#[test]
fn all_stops_reporting_at_the_first_failing_condition() {
    let reported = |id: &str| {
        Condition::Node(ConditionNode { objective_id: Some(id.to_string()), labels: None, flag_checks: Some(vec![check(id, &[])]) })
    };
    let b = ConditionBranch {
        clause: "all".to_string(),
        labels: None,
        flag_checks: Some(vec![check("head", &[])]),
        conditions: vec![reported("a"), reported("b"), reported("c")],
    };
    let mut reports: Vec<String> = Vec::new();
    assert!(!resolve_branch_reporting(&[], &b, &done(&["a"]), 5, &mut reports));
    assert_eq!(reports, done(&["head", "a", "b"]));
    let mut two = b;
    two.clause = "any_two".to_string();
    let mut reports: Vec<String> = Vec::new();
    assert!(!resolve_branch_reporting(&[], &two, &done(&["a"]), 5, &mut reports));
    assert_eq!(reports, done(&["head", "a", "b", "c"]));
}
