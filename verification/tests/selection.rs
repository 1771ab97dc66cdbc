use fsrng::data::models::{BasicInfo, ConfigOption, Game};
use fsrng::data::{objectives_path, output_path, route_output_name, route_schema_path, routes_path};
use fsrng::{
    ask_game_selection, ask_selection, ask_selections, game_choices, get_game_selection,
    selection_choices, Informable,
};

fn option(id: &str) -> ConfigOption {
    ConfigOption { id: id.to_string(), info: BasicInfo { name: format!("{} name", id), description: String::new() } }
}

fn game(name: &str) -> Game {
    Game { name: name.to_string(), file_name: name.to_lowercase() }
}

#[test]
fn game_choices_are_the_names() {
    let games = vec![game("Alpha"), game("Beta")];
    assert_eq!(game_choices(&games), vec!["Alpha", "Beta"]);
    assert_eq!(ask_game_selection(&games, 1).file_name, "beta");
}

#[test]
fn selection_choices_are_the_names() {
    let opts = vec![option("a"), option("b")];
    assert_eq!(selection_choices(&opts), vec!["a name", "b name"]);
    assert_eq!(option("a").info(), option("a").info);
}

#[test]
fn ask_selection_on_nothing_is_none() {
    let opts: Vec<ConfigOption> = Vec::new();
    assert_eq!(ask_selection(&opts, 5), None);
    assert!(ask_selections(&opts, &[3]).is_empty());
}

#[test]
fn ask_selection_clones_the_choice() {
    let opts = vec![option("a"), option("b")];
    assert_eq!(ask_selection(&opts, 1), Some(option("b")));
    assert_eq!(ask_selections(&opts, &[1, 0]), vec![option("b"), option("a")]);
    assert_eq!(ask_selections(&opts, &[]), Vec::<ConfigOption>::new());
}

#[test]
fn game_selection_counts_from_one() {
    let games = vec!["x".to_string(), "y".to_string()];
    assert_eq!(get_game_selection(&games, 1), "x");
    assert_eq!(get_game_selection(&games, 2), "y");
}

#[test]
fn data_paths() {
    assert_eq!(route_schema_path(&"tp".to_string()), "./data/route_schemas/tp.json");
    assert_eq!(objectives_path(&"tp".to_string()), "./data/tp/objectives.json");
    assert_eq!(routes_path(&"tp".to_string()), "./data/tp/routes.json");
    assert_eq!(output_path(&"20240101_120000-tp".to_string()), "./output/20240101_120000-tp.json");
    assert_eq!(route_output_name(&"20240101_120000".to_string(), &"tp".to_string()), "20240101_120000-tp");
}
