//! Which objectives the selected flags allow, and which of them are open
//! once a given list of objectives is completed.
use vstd::prelude::*;

use crate::data::models::{
    Condition, ConditionBranch, ConditionEnd, ConditionNode, ConfigOption, FlagCheck, Objective,
};

verus! {

/// The contents of a list of strings.
pub open spec fn views(s: Seq<String>) -> Seq<Seq<char>> {
    s.map_values(|x: String| x@)
}

/// Some selected flag has this id.
pub open spec fn flag_selected(flags: Seq<ConfigOption>, id: Seq<char>) -> bool {
    exists|i: int| 0 <= i < flags.len() && flags[i].id@ == id
}

/// Some of `ids` is selected.
pub open spec fn any_selected(flags: Seq<ConfigOption>, ids: Seq<String>) -> bool {
    exists|j: int| 0 <= j < ids.len() && flag_selected(flags, #[trigger] ids[j]@)
}

/// All of `ids` are selected.
pub open spec fn all_selected(flags: Seq<ConfigOption>, ids: Seq<String>) -> bool {
    forall|j: int| 0 <= j < ids.len() ==> flag_selected(flags, #[trigger] ids[j]@)
}

/// One flag check against the selected flags; a check whose clause is none of
/// `any`, `all`, `none` passes.
pub open spec fn flag_check_passes(flags: Seq<ConfigOption>, check: FlagCheck) -> bool {
    if check.clause@ == "any"@ {
        any_selected(flags, check.flag_ids@)
    } else if check.clause@ == "all"@ {
        all_selected(flags, check.flag_ids@)
    } else if check.clause@ == "none"@ {
        !any_selected(flags, check.flag_ids@)
    } else {
        true
    }
}

/// Every check passes.
pub open spec fn flag_checks_pass(flags: Seq<ConfigOption>, checks: Seq<FlagCheck>) -> bool {
    forall|k: int| 0 <= k < checks.len() ==> flag_check_passes(flags, #[trigger] checks[k])
}

/// Absent checks pass; present ones must all pass.
pub open spec fn optional_checks_pass(
    flags: Seq<ConfigOption>,
    checks: Option<Vec<FlagCheck>>,
) -> bool {
    match checks {
        Some(c) => flag_checks_pass(flags, c@),
        None => true,
    }
}

/// Whether a condition holds once `completed` (the ids of the completed
/// objectives) is done, out of `total` objectives.
pub open spec fn condition_holds(
    flags: Seq<ConfigOption>,
    c: Condition,
    completed: Seq<Seq<char>>,
    total: int,
) -> bool
    decreases c,
{
    match c {
        Condition::Branch(b) => branch_holds(flags, b, completed, total),
        Condition::Node(n) => node_holds(flags, n, completed),
        Condition::End(_) => completed.len() == total - 1,
    }
}

/// How many of `conds` hold.
pub open spec fn count_holding(
    flags: Seq<ConfigOption>,
    conds: Seq<Condition>,
    completed: Seq<Seq<char>>,
    total: int,
) -> nat
    decreases conds,
{
    if conds.len() == 0 {
        0
    } else {
        count_holding(flags, conds.drop_last(), completed, total) + if condition_holds(
            flags,
            conds.last(),
            completed,
            total,
        ) {
            1nat
        } else {
            0nat
        }
    }
}

/// A branch holds when its flag checks pass and `all`, `any` or `any_two` of
/// its sub-conditions hold; a branch with another clause never holds.
pub open spec fn branch_holds(
    flags: Seq<ConfigOption>,
    b: ConditionBranch,
    completed: Seq<Seq<char>>,
    total: int,
) -> bool
    decreases b,
{
    optional_checks_pass(flags, b.flag_checks) && {
        let n = count_holding(flags, b.conditions@, completed, total);
        if b.clause@ == "all"@ {
            n == b.conditions@.len()
        } else if b.clause@ == "any"@ {
            n >= 1
        } else if b.clause@ == "any_two"@ {
            n >= 2
        } else {
            false
        }
    }
}

/// A node holds when its flag checks pass and its objective, if it names one, is completed.
pub open spec fn node_holds(
    flags: Seq<ConfigOption>,
    n: ConditionNode,
    completed: Seq<Seq<char>>,
) -> bool {
    optional_checks_pass(flags, n.flag_checks) && match n.objective_id {
        Some(id) => completed.contains(id@),
        None => true,
    }
}

/// The objective is not completed yet and its condition, if any, holds.
pub open spec fn objective_open(
    flags: Seq<ConfigOption>,
    o: Objective,
    completed: Seq<Seq<char>>,
    total: int,
) -> bool {
    !completed.contains(o.id@) && match o.condition {
        Some(c) => condition_holds(flags, c, completed, total),
        None => true,
    }
}

/// The ids of the open objectives among `objs`, in their order.
pub open spec fn open_ids(
    flags: Seq<ConfigOption>,
    objs: Seq<Objective>,
    completed: Seq<Seq<char>>,
    total: int,
) -> Seq<Seq<char>>
    decreases objs.len(),
{
    if objs.len() == 0 {
        Seq::empty()
    } else {
        let rest = open_ids(flags, objs.drop_last(), completed, total);
        if objective_open(flags, objs.last(), completed, total) {
            rest.push(objs.last().id@)
        } else {
            rest
        }
    }
}

/// The ids of the objectives that are not completed, in their order.
pub open spec fn remaining_ids(objs: Seq<Objective>, completed: Seq<Seq<char>>) -> Seq<Seq<char>>
    decreases objs.len(),
{
    if objs.len() == 0 {
        Seq::empty()
    } else {
        let rest = remaining_ids(objs.drop_last(), completed);
        if !completed.contains(objs.last().id@) {
            rest.push(objs.last().id@)
        } else {
            rest
        }
    }
}

/// The objectives whose flag checks pass.
pub open spec fn objective_allowed(flags: Seq<ConfigOption>, o: Objective) -> bool {
    optional_checks_pass(flags, o.flag_checks)
}

/// Whether `id` is among `ids`.
pub fn contains_string(ids: &[String], id: &String) -> (res: bool)
    ensures
        res == views(ids@).contains(id@),
{
    let mut i: usize = 0;
    while i < ids.len()
        invariant
            0 <= i <= ids@.len(),
            forall|j: int| 0 <= j < i ==> ids@[j]@ != id@,
        decreases ids@.len() - i,
    {
        if ids[i] == *id {
            assert(views(ids@)[i as int] == id@);
            return true;
        }
        i = i + 1;
    }
    assert forall|j: int| 0 <= j < views(ids@).len() implies views(ids@)[j] != id@ by {
        assert(views(ids@)[j] == ids@[j]@);
    }
    false
}

fn flag_selected_exec(flags: &[ConfigOption], id: &String) -> (res: bool)
    ensures
        res == flag_selected(flags@, id@),
{
    let mut i: usize = 0;
    while i < flags.len()
        invariant
            0 <= i <= flags@.len(),
            forall|j: int| 0 <= j < i ==> flags@[j].id@ != id@,
        decreases flags@.len() - i,
    {
        if flags[i].id == *id {
            return true;
        }
        i = i + 1;
    }
    false
}

fn any_flag_selected(flags: &[ConfigOption], ids: &Vec<String>) -> (res: bool)
    ensures
        res == any_selected(flags@, ids@),
{
    let mut i: usize = 0;
    while i < ids.len()
        invariant
            0 <= i <= ids@.len(),
            forall|j: int| 0 <= j < i ==> !flag_selected(flags@, #[trigger] ids@[j]@),
        decreases ids@.len() - i,
    {
        if flag_selected_exec(flags, &ids[i]) {
            return true;
        }
        i = i + 1;
    }
    false
}

fn all_flags_selected(flags: &[ConfigOption], ids: &Vec<String>) -> (res: bool)
    ensures
        res == all_selected(flags@, ids@),
{
    let mut i: usize = 0;
    while i < ids.len()
        invariant
            0 <= i <= ids@.len(),
            forall|j: int| 0 <= j < i ==> flag_selected(flags@, #[trigger] ids@[j]@),
        decreases ids@.len() - i,
    {
        if !flag_selected_exec(flags, &ids[i]) {
            return false;
        }
        i = i + 1;
    }
    true
}

/// A clause that flag checks know: `any`, `all` or `none`.
pub open spec fn known_clause(clause: Seq<char>) -> bool {
    clause == "any"@ || clause == "all"@ || clause == "none"@
}

/// The unknown clauses that checking reports, in order: the checks are taken in
/// turn up to the first one that fails, and each unknown clause met on the way
/// is reported (an unknown clause itself passes).
pub open spec fn reported_clauses(flags: Seq<ConfigOption>, checks: Seq<FlagCheck>) -> Seq<
    Seq<char>,
>
    decreases checks.len(),
{
    if checks.len() == 0 {
        Seq::empty()
    } else if !known_clause(checks[0].clause@) {
        seq![checks[0].clause@] + reported_clauses(flags, checks.drop_first())
    } else if flag_check_passes(flags, checks[0]) {
        reported_clauses(flags, checks.drop_first())
    } else {
        Seq::empty()
    }
}

/// Checks the flags as `check_flags` does, and also gives the unknown clauses
/// that the check reports, in the order it meets them.
pub fn check_flags_reporting(flag_checks: &[FlagCheck], flags: &[ConfigOption]) -> (res: (
    bool,
    Vec<String>,
))
    ensures
        res.0 == flag_checks_pass(flags@, flag_checks@),
        views(res.1@) == reported_clauses(flags@, flag_checks@),
{
    let any_clause = "any".to_owned();
    let all_clause = "all".to_owned();
    let none_clause = "none".to_owned();
    let mut report: Vec<String> = Vec::new();
    let mut k: usize = 0;
    assert(flag_checks@.skip(0) =~= flag_checks@);
    assert(views(report@) =~= Seq::<Seq<char>>::empty());
    while k < flag_checks.len()
        invariant
            0 <= k <= flag_checks@.len(),
            any_clause@ == "any"@,
            all_clause@ == "all"@,
            none_clause@ == "none"@,
            forall|j: int| 0 <= j < k ==> flag_check_passes(flags@, #[trigger] flag_checks@[j]),
            views(report@) + reported_clauses(flags@, flag_checks@.skip(k as int))
                == reported_clauses(flags@, flag_checks@),
        decreases flag_checks@.len() - k,
    {
        let check = &flag_checks[k];
        let ghost rest = flag_checks@.skip(k as int);
        assert(rest[0] == flag_checks@[k as int]);
        assert(rest.drop_first() =~= flag_checks@.skip(k + 1));
        let ghost before = views(report@);
        if check.clause == any_clause {
            if !any_flag_selected(flags, &check.flag_ids) {
                assert(views(report@) + Seq::<Seq<char>>::empty() =~= views(report@));
                return (false, report);
            }
        } else if check.clause == all_clause {
            if !all_flags_selected(flags, &check.flag_ids) {
                assert(views(report@) + Seq::<Seq<char>>::empty() =~= views(report@));
                return (false, report);
            }
        } else if check.clause == none_clause {
            if any_flag_selected(flags, &check.flag_ids) {
                assert(views(report@) + Seq::<Seq<char>>::empty() =~= views(report@));
                return (false, report);
            }
        } else {
            report.push(check.clause.clone());
            assert(views(report@) =~= before + seq![check.clause@]);
            assert(before + seq![check.clause@] + reported_clauses(flags@, rest.drop_first())
                =~= before + (seq![check.clause@] + reported_clauses(flags@, rest.drop_first())));
        }
        k = k + 1;
    }
    assert(flag_checks@.skip(k as int) =~= Seq::<FlagCheck>::empty());
    assert(views(report@) + Seq::<Seq<char>>::empty() =~= views(report@));
    (true, report)
}

/// Whether every flag check passes against the selected flags: `any` needs one
/// of its ids selected, `all` needs all of them, `none` needs none of them; a
/// check with another clause is skipped (`check_flags_reporting` gives it).
pub fn check_flags(flag_checks: &[FlagCheck], flags: &[ConfigOption]) -> (res: bool)
    ensures
        res == flag_checks_pass(flags@, flag_checks@),
{
    let (passed, _unknown) = check_flags_reporting(flag_checks, flags);
    passed
}

fn check_optional_flags(flag_checks: &Option<Vec<FlagCheck>>, flags: &[ConfigOption]) -> (res: bool)
    ensures
        res == optional_checks_pass(flags@, *flag_checks),
{
    match flag_checks {
        Some(checks) => check_flags(checks.as_slice(), flags),
        None => true,
    }
}

/// The unknown clauses that absent checks (none) or present checks report.
pub open spec fn optional_reports(
    flags: Seq<ConfigOption>,
    checks: Option<Vec<FlagCheck>>,
) -> Seq<Seq<char>> {
    match checks {
        Some(c) => reported_clauses(flags, c@),
        None => Seq::empty(),
    }
}

/// The unknown flag-check clauses reported while a condition is resolved, in
/// the order they are met.
pub open spec fn condition_reports(
    flags: Seq<ConfigOption>,
    c: Condition,
    completed: Seq<Seq<char>>,
    total: int,
) -> Seq<Seq<char>>
    decreases c,
{
    match c {
        Condition::Branch(b) => branch_reports(flags, b, completed, total),
        Condition::Node(n) => optional_reports(flags, n.flag_checks),
        Condition::End(_) => Seq::empty(),
    }
}

/// What resolving a branch reports: its own flag checks, then, if they pass,
/// the sub-conditions it resolves. `all` stops at the first sub-condition that
/// fails, `any` at the first that holds, and `any_two` resolves them all.
pub open spec fn branch_reports(
    flags: Seq<ConfigOption>,
    b: ConditionBranch,
    completed: Seq<Seq<char>>,
    total: int,
) -> Seq<Seq<char>>
    decreases b,
{
    let head = optional_reports(flags, b.flag_checks);
    if !optional_checks_pass(flags, b.flag_checks) {
        head
    } else if b.clause@ == "all"@ {
        head + all_reports(flags, b.conditions@, completed, total)
    } else if b.clause@ == "any"@ {
        head + any_reports(flags, b.conditions@, completed, total)
    } else if b.clause@ == "any_two"@ {
        head + every_reports(flags, b.conditions@, completed, total)
    } else {
        head
    }
}

/// The reports of the sub-conditions up to and including the first that fails.
pub open spec fn all_reports(
    flags: Seq<ConfigOption>,
    conds: Seq<Condition>,
    completed: Seq<Seq<char>>,
    total: int,
) -> Seq<Seq<char>>
    decreases conds,
{
    if conds.len() == 0 {
        Seq::empty()
    } else {
        let prev = all_reports(flags, conds.drop_last(), completed, total);
        if count_holding(flags, conds.drop_last(), completed, total) == conds.len() - 1 {
            prev + condition_reports(flags, conds.last(), completed, total)
        } else {
            prev
        }
    }
}

/// The reports of the sub-conditions up to and including the first that holds.
pub open spec fn any_reports(
    flags: Seq<ConfigOption>,
    conds: Seq<Condition>,
    completed: Seq<Seq<char>>,
    total: int,
) -> Seq<Seq<char>>
    decreases conds,
{
    if conds.len() == 0 {
        Seq::empty()
    } else {
        let prev = any_reports(flags, conds.drop_last(), completed, total);
        if count_holding(flags, conds.drop_last(), completed, total) == 0 {
            prev + condition_reports(flags, conds.last(), completed, total)
        } else {
            prev
        }
    }
}

/// The reports of every sub-condition.
pub open spec fn every_reports(
    flags: Seq<ConfigOption>,
    conds: Seq<Condition>,
    completed: Seq<Seq<char>>,
    total: int,
) -> Seq<Seq<char>>
    decreases conds,
{
    if conds.len() == 0 {
        Seq::empty()
    } else {
        every_reports(flags, conds.drop_last(), completed, total) + condition_reports(
            flags,
            conds.last(),
            completed,
            total,
        )
    }
}

/// What finding the open objectives reports: the conditions of the objectives
/// that are not completed, in order.
pub open spec fn open_reports(
    flags: Seq<ConfigOption>,
    objs: Seq<Objective>,
    completed: Seq<Seq<char>>,
    total: int,
) -> Seq<Seq<char>>
    decreases objs.len(),
{
    if objs.len() == 0 {
        Seq::empty()
    } else {
        let prev = open_reports(flags, objs.drop_last(), completed, total);
        let o = objs.last();
        if !completed.contains(o.id@) && o.condition is Some {
            prev + condition_reports(flags, o.condition.unwrap(), completed, total)
        } else {
            prev
        }
    }
}

/// No more sub-conditions hold than there are.
proof fn lemma_count_bound(
    flags: Seq<ConfigOption>,
    conds: Seq<Condition>,
    completed: Seq<Seq<char>>,
    total: int,
)
    ensures
        count_holding(flags, conds, completed, total) <= conds.len(),
    decreases conds.len(),
{
    if conds.len() > 0 {
        lemma_count_bound(flags, conds.drop_last(), completed, total);
    }
}

/// Once a sub-condition fails, `all` fails and reports nothing more.
proof fn lemma_all_stops(
    flags: Seq<ConfigOption>,
    conds: Seq<Condition>,
    k: int,
    completed: Seq<Seq<char>>,
    total: int,
)
    requires
        0 <= k <= conds.len(),
        count_holding(flags, conds.take(k), completed, total) < k,
    ensures
        count_holding(flags, conds, completed, total) < conds.len(),
        all_reports(flags, conds, completed, total) == all_reports(
            flags,
            conds.take(k),
            completed,
            total,
        ),
    decreases conds.len(),
{
    if k == conds.len() {
        assert(conds.take(k) =~= conds);
    } else {
        let d = conds.drop_last();
        assert(d.take(k) =~= conds.take(k));
        lemma_all_stops(flags, d, k, completed, total);
    }
}

/// Once a sub-condition holds, `any` holds and reports nothing more.
proof fn lemma_any_stops(
    flags: Seq<ConfigOption>,
    conds: Seq<Condition>,
    k: int,
    completed: Seq<Seq<char>>,
    total: int,
)
    requires
        0 <= k <= conds.len(),
        count_holding(flags, conds.take(k), completed, total) >= 1,
    ensures
        count_holding(flags, conds, completed, total) >= 1,
        any_reports(flags, conds, completed, total) == any_reports(
            flags,
            conds.take(k),
            completed,
            total,
        ),
    decreases conds.len(),
{
    if k == conds.len() {
        assert(conds.take(k) =~= conds);
    } else {
        let d = conds.drop_last();
        assert(d.take(k) =~= conds.take(k));
        lemma_any_stops(flags, d, k, completed, total);
    }
}

/// Appends `more` to `reports`.
fn append_reports(reports: &mut Vec<String>, more: Vec<String>)
    ensures
        views(final(reports)@) == views(old(reports)@) + views(more@),
{
    let mut i: usize = 0;
    while i < more.len()
        invariant
            0 <= i <= more@.len(),
            views(reports@) == views(old(reports)@) + views(more@.take(i as int)),
        decreases more@.len() - i,
    {
        let ghost before = reports@;
        reports.push(more[i].clone());
        assert(views(reports@) =~= views(before).push(more@[i as int]@));
        assert(views(more@.take(i + 1)) =~= views(more@.take(i as int)).push(more@[i as int]@));
        assert(views(reports@) =~= views(old(reports)@) + views(more@.take(i + 1)));
        i = i + 1;
    }
    assert(more@.take(i as int) =~= more@);
}

/// Checks optional flag checks, adding the unknown clauses met to `reports`.
fn check_optional_flags_reporting(
    flag_checks: &Option<Vec<FlagCheck>>,
    flags: &[ConfigOption],
    reports: &mut Vec<String>,
) -> (res: bool)
    ensures
        res == optional_checks_pass(flags@, *flag_checks),
        views(final(reports)@) == views(old(reports)@) + optional_reports(flags@, *flag_checks),
{
    match flag_checks {
        Some(checks) => {
            let (passed, unknown) = check_flags_reporting(checks.as_slice(), flags);
            append_reports(reports, unknown);
            passed
        },
        None => {
            assert(views(reports@) + Seq::<Seq<char>>::empty() =~= views(reports@));
            true
        },
    }
}

/// Resolves `condition` as `resolve_condition` does, adding the unknown
/// flag-check clauses met on the way to `reports`.
pub fn resolve_condition_reporting(
    flags: &[ConfigOption],
    condition: &Condition,
    completed: &[String],
    total_objective_count: usize,
    reports: &mut Vec<String>,
) -> (res: bool)
    requires
        total_objective_count >= 1,
    ensures
        res == condition_holds(flags@, *condition, views(completed@), total_objective_count as int),
        views(final(reports)@) == views(old(reports)@) + condition_reports(
            flags@,
            *condition,
            views(completed@),
            total_objective_count as int,
        ),
    decreases condition,
{
    match condition {
        Condition::Branch(branch) => resolve_branch_reporting(
            flags,
            branch,
            completed,
            total_objective_count,
            reports,
        ),
        Condition::Node(node) => resolve_node_reporting(flags, node, completed, reports),
        Condition::End(_) => {
            assert(views(reports@) + Seq::<Seq<char>>::empty() =~= views(reports@));
            completed.len() == total_objective_count - 1
        },
    }
}

/// Whether all of `conditions` hold; stops at the first that fails.
fn all_resolved(
    flags: &[ConfigOption],
    conditions: &Vec<Condition>,
    completed: &[String],
    total_objective_count: usize,
    reports: &mut Vec<String>,
) -> (res: bool)
    requires
        total_objective_count >= 1,
    ensures
        res == (count_holding(flags@, conditions@, views(completed@), total_objective_count as int)
            == conditions@.len()),
        views(final(reports)@) == views(old(reports)@) + all_reports(
            flags@,
            conditions@,
            views(completed@),
            total_objective_count as int,
        ),
    decreases conditions,
{
    let ghost done = views(completed@);
    let ghost total = total_objective_count as int;
    let mut i: usize = 0;
    assert(conditions@.take(0) =~= Seq::<Condition>::empty());
    assert(views(reports@) + Seq::<Seq<char>>::empty() =~= views(reports@));
    while i < conditions.len()
        invariant
            0 <= i <= conditions@.len(),
            total_objective_count >= 1,
            done == views(completed@),
            total == total_objective_count as int,
            count_holding(flags@, conditions@.take(i as int), done, total) == i,
            views(reports@) == views(old(reports)@) + all_reports(
                flags@,
                conditions@.take(i as int),
                done,
                total,
            ),
        decreases conditions@.len() - i,
    {
        let ghost before = views(reports@);
        assert(conditions@.take(i + 1).drop_last() =~= conditions@.take(i as int));
        assert(conditions@.take(i + 1).last() == conditions@[i as int]);
        let holds = resolve_condition_reporting(
            flags,
            &conditions[i],
            completed,
            total_objective_count,
            reports,
        );
        assert(views(reports@) =~= views(old(reports)@) + all_reports(
            flags@,
            conditions@.take(i + 1),
            done,
            total,
        ));
        if !holds {
            proof {
                lemma_all_stops(flags@, conditions@, i + 1, done, total);
            }
            return false;
        }
        i = i + 1;
    }
    assert(conditions@.take(i as int) =~= conditions@);
    true
}

/// Whether any of `conditions` holds; stops at the first that holds.
fn any_resolved(
    flags: &[ConfigOption],
    conditions: &Vec<Condition>,
    completed: &[String],
    total_objective_count: usize,
    reports: &mut Vec<String>,
) -> (res: bool)
    requires
        total_objective_count >= 1,
    ensures
        res == (count_holding(flags@, conditions@, views(completed@), total_objective_count as int)
            >= 1),
        views(final(reports)@) == views(old(reports)@) + any_reports(
            flags@,
            conditions@,
            views(completed@),
            total_objective_count as int,
        ),
    decreases conditions,
{
    let ghost done = views(completed@);
    let ghost total = total_objective_count as int;
    let mut i: usize = 0;
    assert(conditions@.take(0) =~= Seq::<Condition>::empty());
    assert(views(reports@) + Seq::<Seq<char>>::empty() =~= views(reports@));
    while i < conditions.len()
        invariant
            0 <= i <= conditions@.len(),
            total_objective_count >= 1,
            done == views(completed@),
            total == total_objective_count as int,
            count_holding(flags@, conditions@.take(i as int), done, total) == 0,
            views(reports@) == views(old(reports)@) + any_reports(
                flags@,
                conditions@.take(i as int),
                done,
                total,
            ),
        decreases conditions@.len() - i,
    {
        assert(conditions@.take(i + 1).drop_last() =~= conditions@.take(i as int));
        assert(conditions@.take(i + 1).last() == conditions@[i as int]);
        let holds = resolve_condition_reporting(
            flags,
            &conditions[i],
            completed,
            total_objective_count,
            reports,
        );
        assert(views(reports@) =~= views(old(reports)@) + any_reports(
            flags@,
            conditions@.take(i + 1),
            done,
            total,
        ));
        if holds {
            proof {
                lemma_any_stops(flags@, conditions@, i + 1, done, total);
            }
            return true;
        }
        i = i + 1;
    }
    assert(conditions@.take(i as int) =~= conditions@);
    false
}

/// How many of `conditions` hold; every one is resolved.
fn count_resolved(
    flags: &[ConfigOption],
    conditions: &Vec<Condition>,
    completed: &[String],
    total_objective_count: usize,
    reports: &mut Vec<String>,
) -> (res: usize)
    requires
        total_objective_count >= 1,
    ensures
        res == count_holding(
            flags@,
            conditions@,
            views(completed@),
            total_objective_count as int,
        ),
        views(final(reports)@) == views(old(reports)@) + every_reports(
            flags@,
            conditions@,
            views(completed@),
            total_objective_count as int,
        ),
    decreases conditions,
{
    let ghost done = views(completed@);
    let ghost total = total_objective_count as int;
    let mut count: usize = 0;
    let mut i: usize = 0;
    assert(conditions@.take(0) =~= Seq::<Condition>::empty());
    assert(views(reports@) + Seq::<Seq<char>>::empty() =~= views(reports@));
    while i < conditions.len()
        invariant
            0 <= i <= conditions@.len(),
            total_objective_count >= 1,
            done == views(completed@),
            total == total_objective_count as int,
            count == count_holding(flags@, conditions@.take(i as int), done, total),
            count <= i,
            views(reports@) == views(old(reports)@) + every_reports(
                flags@,
                conditions@.take(i as int),
                done,
                total,
            ),
        decreases conditions@.len() - i,
    {
        assert(conditions@.take(i + 1).drop_last() =~= conditions@.take(i as int));
        assert(conditions@.take(i + 1).last() == conditions@[i as int]);
        if resolve_condition_reporting(
            flags,
            &conditions[i],
            completed,
            total_objective_count,
            reports,
        ) {
            count = count + 1;
        }
        assert(views(reports@) =~= views(old(reports)@) + every_reports(
            flags@,
            conditions@.take(i + 1),
            done,
            total,
        ));
        i = i + 1;
    }
    assert(conditions@.take(i as int) =~= conditions@);
    count
}

/// Resolves a branch as `resolve_branch` does, adding the unknown flag-check
/// clauses met on the way to `reports`.
pub fn resolve_branch_reporting(
    flags: &[ConfigOption],
    branch: &ConditionBranch,
    completed: &[String],
    total_objective_count: usize,
    reports: &mut Vec<String>,
) -> (res: bool)
    requires
        total_objective_count >= 1,
    ensures
        res == branch_holds(flags@, *branch, views(completed@), total_objective_count as int),
        branch.flag_checks matches Some(c) && !flag_checks_pass(flags@, c@) ==> !res,
        views(final(reports)@) == views(old(reports)@) + branch_reports(
            flags@,
            *branch,
            views(completed@),
            total_objective_count as int,
        ),
    decreases branch,
{
    let ghost start = views(reports@);
    if !check_optional_flags_reporting(&branch.flag_checks, flags, reports) {
        return false;
    }
    let ghost head = views(reports@);
    let res = if branch.clause == "all".to_owned() {
        all_resolved(flags, &branch.conditions, completed, total_objective_count, reports)
    } else if branch.clause == "any".to_owned() {
        any_resolved(flags, &branch.conditions, completed, total_objective_count, reports)
    } else if branch.clause == "any_two".to_owned() {
        count_resolved(flags, &branch.conditions, completed, total_objective_count, reports) >= 2
    } else {
        assert(views(reports@) + Seq::<Seq<char>>::empty() =~= views(reports@));
        false
    };
    proof {
        let tail = views(reports@).subrange(head.len() as int, views(reports@).len() as int);
        assert(views(reports@) =~= head + tail);
        assert(head + tail =~= start + (head.subrange(start.len() as int, head.len() as int)
            + tail));
    }
    res
}

/// Resolves a node as `resolve_node` does, adding the unknown flag-check
/// clauses met to `reports`.
pub fn resolve_node_reporting(
    flags: &[ConfigOption],
    node: &ConditionNode,
    completed: &[String],
    reports: &mut Vec<String>,
) -> (res: bool)
    ensures
        res == node_holds(flags@, *node, views(completed@)),
        views(final(reports)@) == views(old(reports)@) + optional_reports(flags@, node.flag_checks),
{
    if !check_optional_flags_reporting(&node.flag_checks, flags, reports) {
        return false;
    }
    match &node.objective_id {
        Some(objective_id) => contains_string(completed, objective_id),
        None => true,
    }
}

/// Whether `condition` holds once `completed` is done, out of
/// `total_objective_count` objectives.
pub fn resolve_condition(
    flags: &[ConfigOption],
    condition: &Condition,
    completed: &[String],
    total_objective_count: usize,
) -> (res: bool)
    requires
        total_objective_count >= 1,
    ensures
        res == condition_holds(flags@, *condition, views(completed@), total_objective_count as int),
{
    let mut reports: Vec<String> = Vec::new();
    resolve_condition_reporting(flags, condition, completed, total_objective_count, &mut reports)
}

/// Whether a branch holds: its flag checks pass, and `all`, `any` or `any_two`
/// of its sub-conditions hold; a branch with another clause never holds.
pub fn resolve_branch(
    flags: &[ConfigOption],
    branch: &ConditionBranch,
    completed: &[String],
    total_objective_count: usize,
) -> (res: bool)
    requires
        total_objective_count >= 1,
    ensures
        res == branch_holds(flags@, *branch, views(completed@), total_objective_count as int),
        branch.flag_checks matches Some(c) && !flag_checks_pass(flags@, c@) ==> !res,
{
    let mut reports: Vec<String> = Vec::new();
    resolve_branch_reporting(flags, branch, completed, total_objective_count, &mut reports)
}

/// Whether a node holds: its flag checks pass and its objective, if it names
/// one, is completed.
pub fn resolve_node(flags: &[ConfigOption], node: &ConditionNode, completed: &[String]) -> (res:
    bool)
    ensures
        res == node_holds(flags@, *node, views(completed@)),
{
    let mut reports: Vec<String> = Vec::new();
    resolve_node_reporting(flags, node, completed, &mut reports)
}

/// The ids of the objectives that are open once `completed` is done, adding
/// the unknown flag-check clauses met to `reports`.
pub(crate) fn possible_objectives_ids_reporting(
    flags: &[ConfigOption],
    objectives: &[Objective],
    completed: &[String],
    reports: &mut Vec<String>,
) -> (res: Vec<String>)
    ensures
        views(res@) == open_ids(flags@, objectives@, views(completed@), objectives@.len() as int),
        views(final(reports)@) == views(old(reports)@) + open_reports(
            flags@,
            objectives@,
            views(completed@),
            objectives@.len() as int,
        ),
{
    let ghost done = views(completed@);
    let ghost total = objectives@.len() as int;
    let mut possible: Vec<String> = Vec::new();
    let mut i: usize = 0;
    assert(objectives@.take(0) =~= Seq::<Objective>::empty());
    assert(views(reports@) + Seq::<Seq<char>>::empty() =~= views(reports@));
    while i < objectives.len()
        invariant
            0 <= i <= objectives@.len(),
            done == views(completed@),
            total == objectives@.len() as int,
            views(possible@) == open_ids(flags@, objectives@.take(i as int), done, total),
            views(reports@) == views(old(reports)@) + open_reports(
                flags@,
                objectives@.take(i as int),
                done,
                total,
            ),
        decreases objectives@.len() - i,
    {
        let objective = &objectives[i];
        assert(objectives@.take(i + 1).drop_last() =~= objectives@.take(i as int));
        assert(objectives@.take(i + 1).last() == objectives@[i as int]);
        let ghost before = views(reports@);
        let mut open = !contains_string(completed, &objective.id);
        if open {
            match &objective.condition {
                Some(condition) => {
                    open =
                        resolve_condition_reporting(
                            flags,
                            condition,
                            completed,
                            objectives.len(),
                            reports,
                        );
                },
                None => {},
            }
        }
        assert(views(reports@) =~= views(old(reports)@) + open_reports(
            flags@,
            objectives@.take(i + 1),
            done,
            total,
        ));
        if open {
            possible.push(objective.id.clone());
            assert(views(possible@) =~= views(possible@.drop_last()).push(objective.id@));
        }
        i = i + 1;
    }
    assert(objectives@.take(i as int) =~= objectives@);
    possible
}

/// The ids of the objectives that are not completed.
pub(crate) fn remaining_objective_ids(
    completed_objective_ids: &[String],
    all_objectives: &[Objective],
) -> (res: Vec<String>)
    ensures
        views(res@) == remaining_ids(all_objectives@, views(completed_objective_ids@)),
{
    let mut remaining: Vec<String> = Vec::new();
    let mut i: usize = 0;
    while i < all_objectives.len()
        invariant
            0 <= i <= all_objectives@.len(),
            views(remaining@) == remaining_ids(
                all_objectives@.take(i as int),
                views(completed_objective_ids@),
            ),
        decreases all_objectives@.len() - i,
    {
        let objective = &all_objectives[i];
        assert(all_objectives@.take(i + 1).drop_last() =~= all_objectives@.take(i as int));
        assert(all_objectives@.take(i + 1).last() == all_objectives@[i as int]);
        if !contains_string(completed_objective_ids, &objective.id) {
            remaining.push(objective.id.clone());
            assert(views(remaining@) =~= views(remaining@.drop_last()).push(objective.id@));
        }
        i = i + 1;
    }
    assert(all_objectives@.take(i as int) =~= all_objectives@);
    remaining
}

/// Keeps, in order, the objectives whose flag checks pass against the selected flags.
pub fn filter_objectives(flags: &[ConfigOption], objectives: Vec<Objective>) -> (res: Vec<
    Objective,
>)
    ensures
        res@ == objectives@.filter(|o: Objective| objective_allowed(flags@, o)),
{
    let ghost all = objectives@;
    let ghost pred = |o: Objective| objective_allowed(flags@, o);
    assert(all.len() == objectives.len());
    let mut filtered: Vec<Objective> = Vec::new();
    let mut source = objectives;
    let mut rest: Vec<Objective> = Vec::new();
    while source.len() > 0
        invariant
            source@.len() + rest@.len() == all.len(),
            forall|j: int| 0 <= j < source@.len() ==> source@[j] == all[j],
            forall|j: int| 0 <= j < rest@.len() ==> rest@[j] == all[all.len() - 1 - j],
        decreases source@.len(),
    {
        let objective = source.pop().unwrap();
        rest.push(objective);
    }
    let mut n: usize = 0;
    while rest.len() > 0
        invariant
            n + rest@.len() == all.len(),
            all.len() <= usize::MAX,
            pred == (|o: Objective| objective_allowed(flags@, o)),
            forall|j: int| 0 <= j < rest@.len() ==> rest@[j] == all[all.len() - 1 - j],
            filtered@ == all.take(n as int).filter(pred),
        decreases rest@.len(),
    {
        let objective = rest.pop().unwrap();
        proof {
            assert(objective == all[n as int]);
            assert(all.take(n + 1).drop_last() =~= all.take(n as int));
            reveal_with_fuel(Seq::filter, 1);
        }
        let allowed = check_optional_flags(&objective.flag_checks, flags);
        assert(objective_allowed(flags@, all[n as int]) == allowed);
        if allowed {
            filtered.push(objective);
        }
        proof {
            reveal_with_fuel(Seq::filter, 1);
            assert(all.take(n + 1).last() == all[n as int]);
            assert(pred(all[n as int]) == allowed);
            assert(filtered@ == all.take(n + 1).filter(pred));
        }
        n = n + 1;
    }
    assert(all.take(n as int) =~= all);
    filtered
}

/// Among branches that differ only in their clause, `all` is the strongest and
/// `any` the weakest: a branch that holds under `all` holds under `any_two`
/// (given two sub-conditions or more) and under `any` (given one or more), and
/// one that holds under `any_two` holds under `any`.
pub proof fn lemma_branch_clause_strength(
    flags: Seq<ConfigOption>,
    all: ConditionBranch,
    two: ConditionBranch,
    any: ConditionBranch,
    completed: Seq<Seq<char>>,
    total: int,
)
    requires
        all.clause@ == "all"@,
        two.clause@ == "any_two"@,
        any.clause@ == "any"@,
        all.flag_checks == two.flag_checks,
        all.flag_checks == any.flag_checks,
        all.conditions@ == two.conditions@,
        all.conditions@ == any.conditions@,
    ensures
        branch_holds(flags, all, completed, total) && all.conditions@.len() >= 2 ==> branch_holds(
            flags,
            two,
            completed,
            total,
        ),
        branch_holds(flags, two, completed, total) ==> branch_holds(flags, any, completed, total),
        branch_holds(flags, all, completed, total) && all.conditions@.len() >= 1 ==> branch_holds(
            flags,
            any,
            completed,
            total,
        ),
{
    reveal_strlit("all");
    reveal_strlit("any");
    reveal_strlit("any_two");
    assert("any_two"@.len() != "all"@.len());
    assert("any_two"@.len() != "any"@.len());
    assert("any"@ != "all"@) by {
        assert("any"@[1] != "all"@[1]);
    }
}

/// Completing more objectives never makes a node condition false.
pub proof fn lemma_node_monotone(
    flags: Seq<ConfigOption>,
    n: ConditionNode,
    completed: Seq<Seq<char>>,
    more: Seq<Seq<char>>,
)
    requires
        forall|x: Seq<char>| completed.contains(x) ==> more.contains(x),
    ensures
        node_holds(flags, n, completed) ==> node_holds(flags, n, more),
{
}


/// A single flag check passes as its clause says: `any` exactly when some id
/// it lists is the id of a selected flag, `none` exactly when no id it lists
/// is, and `all` exactly when every id it lists is.
pub proof fn lemma_flag_check_clauses(flags: Seq<ConfigOption>, check: FlagCheck)
    ensures
        check.clause@ == "any"@ ==> (flag_checks_pass(flags, seq![check]) <==> exists|j: int, i: int|
            #![trigger check.flag_ids@[j], flags[i]]
            0 <= j < check.flag_ids@.len() && 0 <= i < flags.len() && flags[i].id@
                == check.flag_ids@[j]@),
        check.clause@ == "none"@ ==> (flag_checks_pass(flags, seq![check]) <==> !exists|j: int, i: int|
            #![trigger check.flag_ids@[j], flags[i]]
            0 <= j < check.flag_ids@.len() && 0 <= i < flags.len() && flags[i].id@
                == check.flag_ids@[j]@),
        check.clause@ == "all"@ ==> (flag_checks_pass(flags, seq![check]) <==> forall|j: int|
            #![trigger check.flag_ids@[j]]
            0 <= j < check.flag_ids@.len() ==> exists|i: int|
                0 <= i < flags.len() && flags[i].id@ == check.flag_ids@[j]@),
{
    reveal_strlit("any");
    reveal_strlit("all");
    reveal_strlit("none");
    assert("any"@ != "all"@) by {
        assert("any"@[1] != "all"@[1]);
    }
    assert("none"@.len() != "any"@.len());
    assert("none"@.len() != "all"@.len());
    let one = seq![check];
    assert(one[0] == check);
    assert(flag_checks_pass(flags, one) == flag_check_passes(flags, check)) by {
        if flag_check_passes(flags, check) {
            assert forall|k: int| 0 <= k < one.len() implies flag_check_passes(flags, #[trigger] one[k]) by {
                assert(k == 0);
            }
        }
    }
    let ids = check.flag_ids@;
    if any_selected(flags, ids) {
        let j = choose|j: int| 0 <= j < ids.len() && flag_selected(flags, #[trigger] ids[j]@);
        let i = choose|i: int| 0 <= i < flags.len() && flags[i].id@ == ids[j]@;
        assert(0 <= j < ids.len() && 0 <= i < flags.len() && flags[i].id@ == ids[j]@);
    }
    if exists|j: int, i: int|
        #![trigger ids[j], flags[i]]
        0 <= j < ids.len() && 0 <= i < flags.len() && flags[i].id@ == ids[j]@ {
        let (j, i) = choose|j: int, i: int|
            #![trigger ids[j], flags[i]]
            0 <= j < ids.len() && 0 <= i < flags.len() && flags[i].id@ == ids[j]@;
        assert(flag_selected(flags, ids[j]@));
    }
    if check.clause@ == "all"@ {
        assert(flag_check_passes(flags, check) == all_selected(flags, check.flag_ids@));
        if all_selected(flags, check.flag_ids@) {
            assert forall|j: int|
                #![trigger check.flag_ids@[j]]
                0 <= j < check.flag_ids@.len() implies exists|i: int|
                    0 <= i < flags.len() && flags[i].id@ == check.flag_ids@[j]@ by {
                assert(flag_selected(flags, check.flag_ids@[j]@));
            }
        } else {
            let j = choose|j: int|
                0 <= j < check.flag_ids@.len() && !flag_selected(flags, #[trigger] check.flag_ids@[j]@);
            assert(!(exists|i: int| 0 <= i < flags.len() && flags[i].id@ == check.flag_ids@[j]@));
        }
        assert(flag_checks_pass(flags, seq![check]) == all_selected(flags, check.flag_ids@));
        assert(all_selected(flags, check.flag_ids@) <==> forall|j: int|
            #![trigger check.flag_ids@[j]]
            0 <= j < check.flag_ids@.len() ==> exists|i: int|
                0 <= i < flags.len() && flags[i].id@ == check.flag_ids@[j]@);
    }
    assert(check.clause@ == "all"@ ==> (flag_checks_pass(flags, seq![check]) <==> forall|j: int|
            #![trigger check.flag_ids@[j]]
            0 <= j < check.flag_ids@.len() ==> exists|i: int|
                0 <= i < flags.len() && flags[i].id@ == check.flag_ids@[j]@));
}

/// A list of flag checks passes exactly when each of its checks, taken alone, passes.
pub proof fn lemma_flag_checks_each(flags: Seq<ConfigOption>, checks: Seq<FlagCheck>)
    ensures
        flag_checks_pass(flags, checks) <==> forall|k: int|
            0 <= k < checks.len() ==> flag_checks_pass(flags, seq![#[trigger] checks[k]]),
{
    assert forall|k: int| 0 <= k < checks.len() implies (flag_checks_pass(
        flags,
        seq![#[trigger] checks[k]],
    ) == flag_check_passes(flags, checks[k])) by {
        let one = seq![checks[k]];
        assert(one[0] == checks[k]);
        if flag_check_passes(flags, checks[k]) {
            assert forall|m: int| 0 <= m < one.len() implies flag_check_passes(flags, #[trigger] one[m]) by {
                assert(m == 0);
            }
        }
    }
}

/// An objective is kept by the filter exactly when it has no flag checks or
/// its whole list of checks passes; a check that fails at any position of the
/// list removes it.
pub proof fn lemma_filter_keeps(flags: Seq<ConfigOption>, o: Objective)
    ensures
        o.flag_checks is None ==> objective_allowed(flags, o),
        o.flag_checks matches Some(c) ==> (objective_allowed(flags, o) <==> flag_checks_pass(flags, c@)),
        o.flag_checks matches Some(c) ==> (objective_allowed(flags, o) <==> forall|k: int|
            0 <= k < c@.len() ==> flag_checks_pass(flags, seq![#[trigger] c@[k]])),
{
    if let Some(c) = o.flag_checks {
        lemma_flag_checks_each(flags, c@);
    }
}

/// A branch whose own flag checks are present and do not all pass never holds,
/// whatever its clause, its sub-conditions and the completed objectives.
pub proof fn lemma_failed_branch_checks(
    flags: Seq<ConfigOption>,
    b: ConditionBranch,
    completed: Seq<Seq<char>>,
    total: int,
)
    requires
        b.flag_checks matches Some(c) && !flag_checks_pass(flags, c@),
    ensures
        !branch_holds(flags, b, completed, total),
        !condition_holds(flags, Condition::Branch(b), completed, total),
{
}


/// How many sub-conditions hold, read position by position: all of them hold
/// exactly when the count is their number, one of them exactly when the count
/// is at least one, and two at different positions exactly when it is at least two.
proof fn lemma_count_positions(
    flags: Seq<ConfigOption>,
    conds: Seq<Condition>,
    completed: Seq<Seq<char>>,
    total: int,
)
    ensures
        count_holding(flags, conds, completed, total) <= conds.len(),
        (count_holding(flags, conds, completed, total) == conds.len()) <==> forall|k: int|
            0 <= k < conds.len() ==> condition_holds(flags, #[trigger] conds[k], completed, total),
        (count_holding(flags, conds, completed, total) >= 1) <==> exists|k: int|
            0 <= k < conds.len() && condition_holds(flags, #[trigger] conds[k], completed, total),
        (count_holding(flags, conds, completed, total) >= 2) <==> exists|k: int, m: int|
            0 <= k < m < conds.len() && condition_holds(flags, #[trigger] conds[k], completed, total)
                && condition_holds(flags, #[trigger] conds[m], completed, total),
    decreases conds.len(),
{
    if conds.len() > 0 {
        let d = conds.drop_last();
        let n = conds.len() - 1;
        lemma_count_positions(flags, d, completed, total);
        assert forall|k: int| 0 <= k < d.len() implies d[k] == conds[k] by {}
        let last = condition_holds(flags, conds[n], completed, total);
        assert(conds.last() == conds[n]);
        if forall|k: int| 0 <= k < conds.len() ==> condition_holds(flags, #[trigger] conds[k], completed, total) {
            assert forall|k: int| 0 <= k < d.len() implies condition_holds(flags, #[trigger] d[k], completed, total) by {
                assert(condition_holds(flags, conds[k], completed, total));
            }
        }
        if count_holding(flags, conds, completed, total) == conds.len() {
            assert forall|k: int| 0 <= k < conds.len() implies condition_holds(flags, #[trigger] conds[k], completed, total) by {
                if k < n {
                    assert(condition_holds(flags, d[k], completed, total));
                }
            }
        }
        if exists|k: int| 0 <= k < conds.len() && condition_holds(flags, #[trigger] conds[k], completed, total) {
            let k = choose|k: int| 0 <= k < conds.len() && condition_holds(flags, #[trigger] conds[k], completed, total);
            if k < n {
                assert(condition_holds(flags, d[k], completed, total));
            }
        }
        if count_holding(flags, d, completed, total) >= 1 {
            let k = choose|k: int| 0 <= k < d.len() && condition_holds(flags, #[trigger] d[k], completed, total);
            assert(condition_holds(flags, conds[k], completed, total));
        }
        if exists|k: int, m: int|
            0 <= k < m < conds.len() && condition_holds(flags, #[trigger] conds[k], completed, total)
                && condition_holds(flags, #[trigger] conds[m], completed, total) {
            let (k, m) = choose|k: int, m: int|
                0 <= k < m < conds.len() && condition_holds(flags, #[trigger] conds[k], completed, total)
                    && condition_holds(flags, #[trigger] conds[m], completed, total);
            assert(condition_holds(flags, d[k], completed, total));
            if m < n {
                assert(condition_holds(flags, d[m], completed, total));
            }
        }
        if count_holding(flags, d, completed, total) >= 2 {
            let (k, m) = choose|k: int, m: int|
                0 <= k < m < d.len() && condition_holds(flags, #[trigger] d[k], completed, total)
                    && condition_holds(flags, #[trigger] d[m], completed, total);
            assert(condition_holds(flags, conds[k], completed, total));
            assert(condition_holds(flags, conds[m], completed, total));
        }
        if count_holding(flags, d, completed, total) >= 1 && last {
            let k = choose|k: int| 0 <= k < d.len() && condition_holds(flags, #[trigger] d[k], completed, total);
            assert(condition_holds(flags, conds[k], completed, total));
            assert(k < n);
        }
    }
}

/// A branch whose flag checks pass holds as its clause says, read from its
/// sub-conditions: `all` when every one holds, `any` when one does, `any_two`
/// when two at different positions do; with another clause it never holds.
pub proof fn lemma_branch_clauses(
    flags: Seq<ConfigOption>,
    b: ConditionBranch,
    completed: Seq<Seq<char>>,
    total: int,
)
    ensures
        b.flag_checks is None || flag_checks_pass(flags, b.flag_checks.unwrap()@) ==> {
            let conds = b.conditions@;
            &&& b.clause@ == "all"@ ==> (branch_holds(flags, b, completed, total) <==> forall|k: int|
                0 <= k < conds.len() ==> condition_holds(flags, #[trigger] conds[k], completed, total))
            &&& b.clause@ == "any"@ ==> (branch_holds(flags, b, completed, total) <==> exists|k: int|
                0 <= k < conds.len() && condition_holds(flags, #[trigger] conds[k], completed, total))
            &&& b.clause@ == "any_two"@ ==> (branch_holds(flags, b, completed, total) <==> exists|
                k: int,
                m: int,
            |
                0 <= k < m < conds.len() && condition_holds(flags, #[trigger] conds[k], completed, total)
                    && condition_holds(flags, #[trigger] conds[m], completed, total))
            &&& !(b.clause@ == "all"@ || b.clause@ == "any"@ || b.clause@ == "any_two"@)
                ==> !branch_holds(flags, b, completed, total)
        },
{
    reveal_strlit("all");
    reveal_strlit("any");
    reveal_strlit("any_two");
    assert("any_two"@.len() != "all"@.len());
    assert("any_two"@.len() != "any"@.len());
    assert("any"@ != "all"@) by {
        assert("any"@[1] != "all"@[1]);
    }
    lemma_count_positions(flags, b.conditions@, completed, total);
}

/// A node whose flag checks pass holds exactly when it names no objective or
/// the objective it names is at some position of the completed list; an end
/// condition holds exactly when one objective is left.
pub proof fn lemma_node_and_end(
    flags: Seq<ConfigOption>,
    n: ConditionNode,
    e: ConditionEnd,
    completed: Seq<Seq<char>>,
    total: int,
)
    ensures
        n.flag_checks is None || flag_checks_pass(flags, n.flag_checks.unwrap()@) ==> (node_holds(
            flags,
            n,
            completed,
        ) <==> (n.objective_id is None || exists|p: int|
            0 <= p < completed.len() && completed[p] == n.objective_id.unwrap()@)),
        n.flag_checks matches Some(c) && !flag_checks_pass(flags, c@) ==> !node_holds(flags, n, completed),
        condition_holds(flags, Condition::End(e), completed, total) <==> completed.len() == total - 1,
{
}

/// An objective that is not completed and whose condition, if any, holds is
/// among the open ids.
pub proof fn lemma_open_contains(
    flags: Seq<ConfigOption>,
    objs: Seq<Objective>,
    completed: Seq<Seq<char>>,
    total: int,
    m: int,
)
    requires
        0 <= m < objs.len(),
        objective_open(flags, objs[m], completed, total),
    ensures
        open_ids(flags, objs, completed, total).contains(objs[m].id@),
    decreases objs.len(),
{
    let rest = open_ids(flags, objs.drop_last(), completed, total);
    if m == objs.len() - 1 {
        assert(objs.last() == objs[m]);
        let all = rest.push(objs[m].id@);
        assert(all[rest.len() as int] == objs[m].id@);
    } else {
        assert(objs.drop_last()[m] == objs[m]);
        lemma_open_contains(flags, objs.drop_last(), completed, total, m);
        let k = choose|k: int| 0 <= k < rest.len() && rest[k] == objs[m].id@;
        if objective_open(flags, objs.last(), completed, total) {
            assert(rest.push(objs.last().id@)[k] == objs[m].id@);
        }
    }
}

} // verus!
