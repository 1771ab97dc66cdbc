use fsrng::data::models::{BasicInfo, ConfigOption, Objective, ObjectiveInfo, WeightedObjective, Weighting};
use fsrng::weights::{build_weighted_objectives, find_objective, get_weight, select_weighted, total_weight_of};

fn option(id: &str) -> ConfigOption {
    ConfigOption { id: id.to_string(), info: BasicInfo { name: id.to_string(), description: String::new() } }
}

fn weighting(pairs: &[(&str, u64)]) -> Weighting {
    let mut w = Weighting::new();
    for (k, v) in pairs {
        w.insert(k.to_string(), *v);
    }
    w
}

fn objective(id: &str, weighting: Option<Weighting>) -> Objective {
    Objective {
        id: id.to_string(),
        info: ObjectiveInfo { name: id.to_string(), location: String::new() },
        flag_checks: None,
        weighting,
        routes: None,
        condition: None,
    }
}

#[test]
fn weighting_get_after_insert() {
    let mut w = Weighting::new();
    assert_eq!(w.get(&"a".to_string()), None);
    w.insert("a".to_string(), 3);
    w.insert("b".to_string(), 4);
    assert_eq!(w.get(&"a".to_string()), Some(3));
    w.insert("a".to_string(), 7);
    assert_eq!(w.get(&"a".to_string()), Some(7));
    assert_eq!(w.get(&"b".to_string()), Some(4));
    assert_eq!(w.get(&"c".to_string()), None);
    let mut entries = w.to_entries();
    entries.sort();
    assert_eq!(entries, vec![("a".to_string(), 7), ("b".to_string(), 4)]);
}

#[test]
fn first_named_preference_decides_the_weight() {
    let w = Some(weighting(&[("p2", 5), ("p1", 3)]));
    assert_eq!(get_weight(&[option("p1"), option("p2")], &w), 3);
    assert_eq!(get_weight(&[option("p2"), option("p1")], &w), 5);
    assert_eq!(get_weight(&[option("x"), option("p2")], &w), 5);
    assert_eq!(get_weight(&[option("x")], &w), 1);
    assert_eq!(get_weight(&[], &w), 1);
    assert_eq!(get_weight(&[option("p1")], &None), 1);
}

#[test]
fn weighted_ids_take_the_first_objective_with_the_id() {
    let objs = vec![
        objective("a", Some(weighting(&[("p", 9)]))),
        objective("b", None),
        objective("a", Some(weighting(&[("p", 2)]))),
    ];
    assert_eq!(find_objective(&objs, &"a".to_string()), 0);
    assert_eq!(find_objective(&objs, &"b".to_string()), 1);
    let w = build_weighted_objectives(&[option("p")], &["b".to_string(), "a".to_string()], &objs);
    assert_eq!(w.len(), 2);
    assert_eq!((w[0].id.as_str(), w[0].weight), ("b", 1));
    assert_eq!((w[1].id.as_str(), w[1].weight), ("a", 9));
}

#[test]
fn roll_picks_the_share_it_falls_in() {
    let ws = vec![
        WeightedObjective { id: "x".to_string(), weight: 1 },
        WeightedObjective { id: "zero".to_string(), weight: 0 },
        WeightedObjective { id: "y".to_string(), weight: 2 },
    ];
    assert_eq!(select_weighted(&ws, 0), "x");
    assert_eq!(select_weighted(&ws, 1), "y");
    assert_eq!(select_weighted(&ws, 2), "y");
}

#[test]
fn total_weight_fits_or_not() {
    let w = |weight: u64| WeightedObjective { id: "x".to_string(), weight };
    assert_eq!(total_weight_of(&[]), Some(0));
    assert_eq!(total_weight_of(&[w(1), w(0), w(2)]), Some(3));
    assert_eq!(total_weight_of(&[w(u64::MAX), w(0)]), Some(u64::MAX));
    assert_eq!(total_weight_of(&[w(u64::MAX), w(1)]), None);
}
