//! Where the game data is read from and where routes are written.
pub mod models;

use vstd::prelude::*;

verus! {

/// `prefix`, then `middle`, then `suffix`.
fn join3(prefix: &str, middle: &str, suffix: &str) -> (res: String)
    ensures
        res@ == prefix@ + middle@ + suffix@,
{
    let mut res = prefix.to_owned();
    res.append(middle);
    res.append(suffix);
    res
}

/// The file of a game's route schema: `./data/route_schemas/<file_name>.json`.
pub fn route_schema_path(file_name: &String) -> (res: String)
    ensures
        res@ == "./data/route_schemas/"@ + file_name@ + ".json"@,
{
    join3("./data/route_schemas/", file_name.as_str(), ".json")
}

/// The file of a game's objectives: `./data/<game>/objectives.json`.
pub fn objectives_path(game: &String) -> (res: String)
    ensures
        res@ == "./data/"@ + game@ + "/objectives.json"@,
{
    join3("./data/", game.as_str(), "/objectives.json")
}

/// The file of a game's routes: `./data/<game>/routes.json`.
pub fn routes_path(game: &String) -> (res: String)
    ensures
        res@ == "./data/"@ + game@ + "/routes.json"@,
{
    join3("./data/", game.as_str(), "/routes.json")
}

/// The file that an output named `name` is written to: `./output/<name>.json`.
pub fn output_path(name: &String) -> (res: String)
    ensures
        res@ == "./output/"@ + name@ + ".json"@,
{
    join3("./output/", name.as_str(), ".json")
}

/// The name a route is written under: `<time_sig>-<game_id>`.
pub fn route_output_name(time_sig: &String, game_id: &String) -> (res: String)
    ensures
        res@ == time_sig@ + "-"@ + game_id@,
{
    join3(time_sig.as_str(), "-", game_id.as_str())
}

} // verus!
