use fsrng::data::models::{
    BasicInfo, Condition, ConditionBranch, ConditionEnd, ConditionNode, ConfigOption, FlagCheck,
    Objective, ObjectiveInfo, Weighting,
};
use fsrng::{
    build_generated_route, gen_rng, generate_ordered_objectives,
    generate_ordered_objectives_reporting, GenerationError, RouteRng,
};
use rand::Rng;
use rand_chacha::rand_core::SeedableRng;
use rand_chacha::ChaCha8Rng;

fn option(id: &str) -> ConfigOption {
    ConfigOption {
        id: id.to_string(),
        info: BasicInfo { name: format!("{} name", id), description: format!("{} text", id) },
    }
}

fn info(id: &str) -> ObjectiveInfo {
    ObjectiveInfo { name: id.to_uppercase(), location: format!("{} place", id) }
}

fn objective(id: &str, condition: Option<Condition>) -> Objective {
    Objective {
        id: id.to_string(),
        info: info(id),
        flag_checks: None,
        weighting: None,
        routes: None,
        condition,
    }
}

fn weighted(id: &str, weights: &[(&str, u64)]) -> Objective {
    let mut w = Weighting::new();
    for (k, v) in weights {
        w.insert(k.to_string(), *v);
    }
    let mut o = objective(id, None);
    o.weighting = Some(w);
    o
}

fn node(id: &str) -> Condition {
    Condition::Node(ConditionNode { objective_id: Some(id.to_string()), labels: None, flag_checks: None })
}

fn branch(clause: &str, conditions: Vec<Condition>) -> Condition {
    Condition::Branch(ConditionBranch { clause: clause.to_string(), labels: None, flag_checks: None, conditions })
}

fn names(infos: &[ObjectiveInfo]) -> Vec<String> {
    infos.iter().map(|i| i.name.to_lowercase()).collect()
}

fn run(flags: &[ConfigOption], prefs: &[ConfigOption], objs: &[Objective], seed: u64) -> Result<Vec<ObjectiveInfo>, GenerationError> {
    let mut rng = gen_rng(seed);
    generate_ordered_objectives(flags, prefs, objs, &mut rng)
}

#[test]
fn chain_of_prerequisites_is_kept_in_order() {
    let objs = vec![
        objective("c", Some(node("b"))),
        objective("a", None),
        objective("b", Some(node("a"))),
    ];
    for seed in 0..50 {
        let route = run(&[], &[], &objs, seed).unwrap();
        assert_eq!(names(&route), vec!["a", "b", "c"]);
    }
}

#[test]
fn end_objective_comes_last() {
    let objs = vec![
        objective("end", Some(Condition::End(ConditionEnd))),
        objective("a", None),
        objective("b", None),
        objective("c", None),
    ];
    for seed in 0..50 {
        let route = run(&[], &[], &objs, seed).unwrap();
        assert_eq!(route.len(), 4);
        assert_eq!(names(&route)[3], "end");
    }
}

#[test]
fn complete_route_draws_each_objective_once() {
    let objs: Vec<Objective> = ["a", "b", "c", "d", "e"].iter().map(|id| objective(id, None)).collect();
    for seed in 0..50 {
        let mut route = names(&run(&[], &[], &objs, seed).unwrap());
        route.sort();
        assert_eq!(route, vec!["a", "b", "c", "d", "e"]);
    }
}

#[test]
fn same_seed_same_route() {
    let objs: Vec<Objective> = ["a", "b", "c", "d", "e", "f"].iter().map(|id| objective(id, None)).collect();
    for seed in 0..20 {
        assert_eq!(run(&[], &[], &objs, seed).unwrap(), run(&[], &[], &objs, seed).unwrap());
    }
}

#[test]
fn seeds_give_different_routes() {
    let objs: Vec<Objective> = ["a", "b", "c", "d", "e", "f"].iter().map(|id| objective(id, None)).collect();
    let first = run(&[], &[], &objs, 0).unwrap();
    assert!((1..50).any(|seed| run(&[], &[], &objs, seed).unwrap() != first));
}

#[test]
fn branch_all_any_any_two() {
    // "all": x needs a and b; "any": y needs a or z; "any_two": w needs two of a, b, z.
    let objs = vec![
        objective("a", None),
        objective("b", Some(node("a"))),
        objective("x", Some(branch("all", vec![node("a"), node("b")]))),
        objective("y", Some(branch("any", vec![node("a"), node("z")]))),
        objective("w", Some(branch("any_two", vec![node("a"), node("b"), node("z")]))),
    ];
    for seed in 0..50 {
        let route = names(&run(&[], &[], &objs, seed).unwrap());
        let pos = |id: &str| route.iter().position(|r| r == id).unwrap();
        assert_eq!(route.len(), 5);
        assert_eq!(pos("a"), 0);
        assert!(pos("x") > pos("b"));
        assert!(pos("y") > pos("a"));
        assert!(pos("w") > pos("b"));
    }
}

#[test]
fn unknown_branch_clause_never_opens() {
    let objs = vec![objective("a", None), objective("b", Some(branch("most", vec![node("a")])))];
    for seed in 0..10 {
        assert_eq!(
            run(&[], &[], &objs, seed),
            Err(GenerationError::UnresolvedObjectives(vec!["b".to_string()]))
        );
    }
}

#[test]
fn node_flag_checks_gate_the_objective() {
    let gated = Condition::Node(ConditionNode {
        objective_id: None,
        labels: None,
        flag_checks: Some(vec![FlagCheck { clause: "any".to_string(), flag_ids: vec!["hard".to_string()] }]),
    });
    let objs = vec![objective("a", None), objective("b", Some(gated))];
    assert_eq!(run(&[option("hard")], &[], &objs, 3).unwrap().len(), 2);
    assert_eq!(
        run(&[], &[], &objs, 3),
        Err(GenerationError::UnresolvedObjectives(vec!["b".to_string()]))
    );
}

#[test]
fn unresolvable_objectives_are_reported() {
    let objs = vec![
        objective("a", None),
        objective("b", Some(node("missing"))),
        objective("c", Some(node("b"))),
    ];
    assert_eq!(
        run(&[], &[], &objs, 7),
        Err(GenerationError::UnresolvedObjectives(vec!["b".to_string(), "c".to_string()]))
    );
}

#[test]
fn no_objectives_give_an_empty_route() {
    assert_eq!(run(&[], &[], &[], 1), Ok(vec![]));
}

#[test]
fn zero_weight_is_never_drawn() {
    // "z" weighs 0 under the selected preference, so "a" is always drawn first,
    // after which only "z" is open and nothing can be drawn.
    let prefs = vec![option("fast")];
    let objs = vec![weighted("z", &[("fast", 0)]), objective("a", None)];
    for seed in 0..30 {
        assert_eq!(run(&[], &prefs, &objs, seed), Err(GenerationError::NoWeight));
    }
    // Without the preference, "z" weighs 1.
    assert_eq!(run(&[], &[], &objs, 0).unwrap().len(), 2);
}

#[test]
fn weights_that_overflow_are_refused() {
    let prefs = vec![option("p")];
    let objs = vec![weighted("a", &[("p", u64::MAX)]), weighted("b", &[("p", 1)])];
    assert_eq!(run(&[], &prefs, &objs, 0), Err(GenerationError::WeightOverflow));
}

#[test]
fn heavy_objective_is_drawn_first_most_of_the_time() {
    let prefs = vec![option("p")];
    let objs = vec![weighted("heavy", &[("p", 1000)]), objective("light", None)];
    let firsts = (0..200).filter(|seed| names(&run(&[], &prefs, &objs, *seed).unwrap())[0] == "heavy").count();
    assert!(firsts > 180);
}

#[test]
fn generated_route_keeps_infos() {
    let route = build_generated_route(
        "1.2".to_string(),
        "Game".to_string(),
        42,
        vec![option("f1"), option("f2")],
        vec![option("p1")],
        vec![info("a")],
    );
    assert_eq!(route.app_version, "1.2");
    assert_eq!(route.game_name, "Game");
    assert_eq!(route.seed, 42);
    assert_eq!(route.flags, vec![option("f1").info, option("f2").info]);
    assert_eq!(route.preferences, vec![option("p1").info]);
    assert_eq!(route.ordered_objectives, vec![info("a")]);
}

#[test]
fn new_generator_starts_at_the_seed() {
    assert_eq!(gen_rng(9), RouteRng { seed: 9, word_pos: 0 });
}

#[test]
fn route_follows_one_chacha_stream() {
    // Unconditioned objectives: at each step every objective not yet drawn is
    // open, and one generator kept from start to end rolls below their total weight.
    let prefs = vec![option("p")];
    let objs = vec![
        weighted("a", &[("p", 3)]),
        objective("b", None),
        weighted("c", &[("p", 7)]),
        weighted("d", &[("p", 2)]),
        objective("e", None),
    ];
    for seed in 0..40 {
        let mut stream = ChaCha8Rng::seed_from_u64(seed);
        let mut left: Vec<(String, u64)> = vec![
            ("a".to_string(), 3),
            ("b".to_string(), 1),
            ("c".to_string(), 7),
            ("d".to_string(), 2),
            ("e".to_string(), 1),
        ];
        let mut expected: Vec<String> = Vec::new();
        while !left.is_empty() {
            let total: u64 = left.iter().map(|(_, w)| *w).sum();
            let mut roll = stream.gen_range(0..total);
            let mut i = 0;
            while roll >= left[i].1 {
                roll -= left[i].1;
                i += 1;
            }
            expected.push(left.remove(i).0);
        }
        let mut rng = gen_rng(seed);
        let route = generate_ordered_objectives(&[], &prefs, &objs, &mut rng).unwrap();
        assert_eq!(names(&route), expected);
        assert_eq!(rng.seed, seed);
        assert_eq!(rng.word_pos, stream.get_word_pos());
    }
}

#[test]
fn same_seed_leaves_the_same_generator() {
    let objs: Vec<Objective> = ["a", "b", "c", "d"].iter().map(|id| objective(id, None)).collect();
    let mut first = gen_rng(5);
    let mut second = gen_rng(5);
    let a = generate_ordered_objectives(&[], &[], &objs, &mut first);
    let b = generate_ordered_objectives(&[], &[], &objs, &mut second);
    assert_eq!(a, b);
    assert_eq!(first, second);
    assert!(first.word_pos > 0);
}

#[test]
fn unknown_clauses_are_reported_while_drawing() {
    let gated = || {
        Condition::Node(ConditionNode {
            objective_id: Some("a".to_string()),
            labels: None,
            flag_checks: Some(vec![FlagCheck { clause: "maybe".to_string(), flag_ids: vec![] }]),
        })
    };
    // "b" is resolved at both steps, and reports its clause each time.
    let objs = vec![objective("a", None), objective("b", Some(gated()))];
    let mut rng = gen_rng(1);
    let mut reports: Vec<String> = Vec::new();
    let route = generate_ordered_objectives_reporting(&[], &[], &objs, &mut rng, &mut reports);
    assert_eq!(names(&route.unwrap()), vec!["a", "b"]);
    assert_eq!(reports, vec!["maybe".to_string(), "maybe".to_string()]);
    // "any" stops at the first sub-condition that holds: once "a" is drawn,
    // the gated node is not resolved again.
    let objs = vec![
        objective("a", None),
        objective("c", Some(branch("any", vec![node("a"), gated()]))),
    ];
    let mut reports: Vec<String> = vec!["earlier".to_string()];
    let route = generate_ordered_objectives_reporting(&[], &[], &objs, &mut gen_rng(2), &mut reports);
    assert_eq!(names(&route.unwrap()), vec!["a", "c"]);
    assert_eq!(reports, vec!["earlier".to_string(), "maybe".to_string()]);
}
