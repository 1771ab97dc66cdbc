//! Drawing a route: objectives are completed one at a time, each drawn at
//! random among the open ones, with the weights that the preferences give.
use rand::Rng;
use rand_chacha::rand_core::SeedableRng;
use rand_chacha::ChaCha8Rng;
use vstd::prelude::*;

use crate::conditions::{
    objective_open, open_ids, open_reports, possible_objectives_ids_reporting, remaining_ids,
    remaining_objective_ids, views,
};
use crate::data::models::{
    BasicInfo, ConfigOption, Objective, ObjectiveInfo, Route, WeightedObjective,
};
use crate::weights::{
    build_weighted_objectives, find_objective, first_index, has_id, lemma_roll_hits_one,
    roll_hits, select_weighted, total_weight, total_weight_of, weight_of_id,
};

verus! {

/// Why a route could not be drawn.
#[derive(Debug, PartialEq, Eq)]
pub enum GenerationError {
    /// No objective is open but some are left; these are their ids.
    UnresolvedObjectives(Vec<String>),
    /// The open objectives all have weight 0, so none can be drawn.
    NoWeight,
    /// The weights of the open objectives add up to more than `u64::MAX`.
    WeightOverflow,
}

/// The ids that are open once `done` is completed.
pub open spec fn open_now(
    flags: Seq<ConfigOption>,
    objs: Seq<Objective>,
    done: Seq<Seq<char>>,
) -> Seq<Seq<char>> {
    open_ids(flags, objs, done, objs.len() as int)
}

/// The sum of the weights of these ids.
pub open spec fn ids_weight(
    prefs: Seq<ConfigOption>,
    objs: Seq<Objective>,
    ids: Seq<Seq<char>>,
) -> int
    decreases ids.len(),
{
    if ids.len() == 0 {
        0
    } else {
        ids_weight(prefs, objs, ids.drop_last()) + weight_of_id(prefs, objs, ids.last())
    }
}

/// `id` may be drawn once `done` is completed: it is open and has a positive weight.
pub open spec fn valid_step(
    flags: Seq<ConfigOption>,
    prefs: Seq<ConfigOption>,
    objs: Seq<Objective>,
    done: Seq<Seq<char>>,
    id: Seq<char>,
) -> bool {
    open_now(flags, objs, done).contains(id) && weight_of_id(prefs, objs, id) > 0
}

/// Every id of `order` may be drawn once those before it are completed.
pub open spec fn valid_order(
    flags: Seq<ConfigOption>,
    prefs: Seq<ConfigOption>,
    objs: Seq<Objective>,
    order: Seq<Seq<char>>,
) -> bool {
    forall|k: int|
        0 <= k < order.len() ==> valid_step(flags, prefs, objs, order.take(k), #[trigger] order[k])
}

/// The infos of the (first) objectives with the ids of `order`.
pub open spec fn order_infos(objs: Seq<Objective>, order: Seq<Seq<char>>) -> Seq<ObjectiveInfo> {
    order.map_values(|id: Seq<char>| objs[first_index(objs, id)].info)
}

/// Each open id belongs to an open objective.
pub proof fn lemma_open_member(
    flags: Seq<ConfigOption>,
    objs: Seq<Objective>,
    done: Seq<Seq<char>>,
    total: int,
    x: Seq<char>,
)
    requires
        open_ids(flags, objs, done, total).contains(x),
    ensures
        exists|m: int|
            0 <= m < objs.len() && objs[m].id@ == x && objective_open(
                flags,
                #[trigger] objs[m],
                done,
                total,
            ),
    decreases objs.len(),
{
    let rest = open_ids(flags, objs.drop_last(), done, total);
    let last = objs.last();
    if objective_open(flags, last, done, total) && x == last.id@ {
        assert(objs[objs.len() - 1] == last);
    } else {
        if objective_open(flags, last, done, total) {
            let k = choose|k: int| 0 <= k < rest.push(last.id@).len() && rest.push(last.id@)[k] == x;
            assert(k < rest.len());
            assert(rest[k] == x);
        }
        assert(rest.contains(x));
        lemma_open_member(flags, objs.drop_last(), done, total, x);
        let m = choose|m: int|
            0 <= m < objs.drop_last().len() && objs.drop_last()[m].id@ == x && objective_open(
                flags,
                #[trigger] objs.drop_last()[m],
                done,
                total,
            );
        assert(objs[m] == objs.drop_last()[m]);
    }
}

/// Weights built entry by entry from ids add up as the ids' weights do.
proof fn lemma_weights_add_up(
    prefs: Seq<ConfigOption>,
    objs: Seq<Objective>,
    ids: Seq<Seq<char>>,
    ws: Seq<WeightedObjective>,
)
    requires
        ws.len() == ids.len(),
        forall|i: int| 0 <= i < ws.len() ==> (#[trigger] ws[i]).weight == weight_of_id(prefs, objs, ids[i]),
    ensures
        total_weight(ws) == ids_weight(prefs, objs, ids),
    decreases ws.len(),
{
    if ws.len() > 0 {
        let ws0 = ws.drop_last();
        let ids0 = ids.drop_last();
        assert forall|i: int| 0 <= i < ws0.len() implies (#[trigger] ws0[i]).weight == weight_of_id(
            prefs,
            objs,
            ids0[i],
        ) by {
            assert(ws0[i] == ws[i]);
        }
        lemma_weights_add_up(prefs, objs, ids0, ws0);
        assert(ws.last() == ws[ws.len() - 1]);
    }
}

/// The generator that draws a route: the ChaCha8 stream seeded from `seed`,
/// of which the first `word_pos` 32-bit words are used up.
#[derive(Clone, Copy, Debug, PartialEq, Eq)]
pub struct RouteRng {
    pub seed: u64,
    pub word_pos: u128,
}

/// What `gen_range(0..upper)` gives on the ChaCha8 stream seeded from `seed`
/// with `word_pos` words used up, and the position of the stream after it.
pub uninterp spec fn chacha_draw(seed: u64, word_pos: u128, upper: u64) -> (u64, u128);

/// A generator seeded with `seed`, nothing of its stream used yet.
pub fn gen_rng(seed: u64) -> (rng: RouteRng)
    ensures
        rng == (RouteRng { seed: seed, word_pos: 0 }),
{
    RouteRng { seed, word_pos: 0 }
}

/// Draws from the stream that `rng` stands for: `rand_chacha::ChaCha8Rng` is
/// seeded with `seed_from_u64` and moved to the position with `set_word_pos`,
/// `rand::Rng::gen_range(0..upper)` draws, and `get_word_pos` gives the new
/// position. The roll and the new position are named by `chacha_draw`, as
/// functions of the seed, the position and the bound; rand documents that the
/// roll lies in the range, and that the call panics on an empty range, which
/// `requires` rules out. Which roll comes out is left unsaid.
#[verifier::external_body]
fn random_roll(rng: &mut RouteRng, upper: u64) -> (roll: u64)
    requires
        upper > 0,
    ensures
        roll == chacha_draw(old(rng).seed, old(rng).word_pos, upper).0,
        roll < upper,
        final(rng).seed == old(rng).seed,
        final(rng).word_pos == chacha_draw(old(rng).seed, old(rng).word_pos, upper).1,
{
    let mut generator = ChaCha8Rng::seed_from_u64(rng.seed);
    generator.set_word_pos(rng.word_pos);
    let roll = generator.gen_range(0..upper);
    rng.word_pos = generator.get_word_pos();
    roll
}

/// The roll that `rng` gives below `upper`.
pub open spec fn roll_of(rng: RouteRng, upper: u64) -> u64 {
    chacha_draw(rng.seed, rng.word_pos, upper).0
}

/// The generator after it gave a roll below `upper`.
pub open spec fn after_roll(rng: RouteRng, upper: u64) -> RouteRng {
    RouteRng { seed: rng.seed, word_pos: chacha_draw(rng.seed, rng.word_pos, upper).1 }
}

/// The id whose share a roll falls in, the ids' weights laid end to end in order.
pub open spec fn id_hit(
    prefs: Seq<ConfigOption>,
    objs: Seq<Objective>,
    ids: Seq<Seq<char>>,
    roll: int,
    i: int,
) -> bool {
    &&& 0 <= i < ids.len()
    &&& ids_weight(prefs, objs, ids.take(i)) <= roll < ids_weight(prefs, objs, ids.take(i + 1))
}

/// The id that a roll picks among `ids`.
pub open spec fn picked_id(
    prefs: Seq<ConfigOption>,
    objs: Seq<Objective>,
    ids: Seq<Seq<char>>,
    roll: int,
) -> Seq<char> {
    ids[choose|i: int| id_hit(prefs, objs, ids, roll, i)]
}

/// Weights built entry by entry from ids add up, prefix by prefix, as the ids' weights do.
proof fn lemma_prefix_weights_agree(
    prefs: Seq<ConfigOption>,
    objs: Seq<Objective>,
    ids: Seq<Seq<char>>,
    ws: Seq<WeightedObjective>,
    j: int,
)
    requires
        ws.len() == ids.len(),
        0 <= j <= ws.len(),
        forall|i: int| 0 <= i < ws.len() ==> (#[trigger] ws[i]).weight == weight_of_id(prefs, objs, ids[i]),
    ensures
        total_weight(ws.take(j)) == ids_weight(prefs, objs, ids.take(j)),
{
    let wj = ws.take(j);
    let ij = ids.take(j);
    assert forall|i: int| 0 <= i < wj.len() implies (#[trigger] wj[i]).weight == weight_of_id(
        prefs,
        objs,
        ij[i],
    ) by {
        assert(wj[i] == ws[i]);
        assert(ij[i] == ids[i]);
    }
    lemma_weights_add_up(prefs, objs, ij, wj);
}

/// The entry that a roll hits in weights built from ids is the id the roll picks.
proof fn lemma_hit_is_picked(
    prefs: Seq<ConfigOption>,
    objs: Seq<Objective>,
    ids: Seq<Seq<char>>,
    ws: Seq<WeightedObjective>,
    roll: int,
    i: int,
)
    requires
        ws.len() == ids.len(),
        forall|k: int| 0 <= k < ws.len() ==> (#[trigger] ws[k]).weight == weight_of_id(prefs, objs, ids[k]),
        roll_hits(ws, roll, i),
    ensures
        id_hit(prefs, objs, ids, roll, i),
        picked_id(prefs, objs, ids, roll) == ids[i],
{
    lemma_prefix_weights_agree(prefs, objs, ids, ws, i);
    lemma_prefix_weights_agree(prefs, objs, ids, ws, i + 1);
    assert(id_hit(prefs, objs, ids, roll, i));
    let j = choose|j: int| id_hit(prefs, objs, ids, roll, j);
    lemma_prefix_weights_agree(prefs, objs, ids, ws, j);
    lemma_prefix_weights_agree(prefs, objs, ids, ws, j + 1);
    assert(roll_hits(ws, roll, j));
    lemma_roll_hits_one(ws, roll, i, j);
}

/// How a draw ends: every objective drawn, none open while some are left, the
/// open ones all of weight 0, or their weights adding up past `u64::MAX`.
pub enum DrawEnd {
    Complete,
    Stuck,
    Weightless,
    Overflow,
}

/// Drawing on from `done` with the generator in state `rng`: the ids drawn in
/// the end (`done` first), how it ends, the generator after it, and the unknown
/// flag-check clauses reported on the way. At each step the open objectives are
/// found, the generator rolls below their total weight, and the id whose share
/// the roll falls in is drawn.
pub open spec fn draw_from(
    flags: Seq<ConfigOption>,
    prefs: Seq<ConfigOption>,
    objs: Seq<Objective>,
    done: Seq<Seq<char>>,
    rng: RouteRng,
) -> (Seq<Seq<char>>, DrawEnd, RouteRng, Seq<Seq<char>>)
    decreases objs.len() - done.len(),
{
    if done.len() >= objs.len() {
        (done, DrawEnd::Complete, rng, Seq::empty())
    } else {
        let open = open_now(flags, objs, done);
        let seen = open_reports(flags, objs, done, objs.len() as int);
        let total = ids_weight(prefs, objs, open);
        if open.len() == 0 {
            (done, DrawEnd::Stuck, rng, seen)
        } else if total > u64::MAX {
            (done, DrawEnd::Overflow, rng, seen)
        } else if total == 0 {
            (done, DrawEnd::Weightless, rng, seen)
        } else {
            let id = picked_id(prefs, objs, open, roll_of(rng, total as u64) as int);
            let rest = draw_from(flags, prefs, objs, done.push(id), after_roll(rng, total as u64));
            (rest.0, rest.1, rest.2, seen + rest.3)
        }
    }
}

/// Drawing a whole route with the generator in state `rng`.
pub open spec fn drawn(
    flags: Seq<ConfigOption>,
    prefs: Seq<ConfigOption>,
    objs: Seq<Objective>,
    rng: RouteRng,
) -> (Seq<Seq<char>>, DrawEnd, RouteRng, Seq<Seq<char>>) {
    draw_from(flags, prefs, objs, Seq::empty(), rng)
}

/// A route is reproducible: drawn twice from the same flags, preferences and
/// objectives with generators in the same state (such as two made from one
/// seed), it gives the same ids, ends the same way, leaves the generators in
/// the same state and reports the same clauses.
pub proof fn lemma_same_seed_same_route(
    flags: Seq<ConfigOption>,
    prefs: Seq<ConfigOption>,
    objs: Seq<Objective>,
    a: RouteRng,
    b: RouteRng,
)
    requires
        a == b,
    ensures
        drawn(flags, prefs, objs, a) == drawn(flags, prefs, objs, b),
{
}

/// Draws one of the weighted ids: the generator rolls below the total weight,
/// and the entry whose share the roll falls in is drawn.
pub fn random_weighted_objective(
    weighted_objectives: &[WeightedObjective],
    rng: &mut RouteRng,
) -> (res: String)
    requires
        0 < total_weight(weighted_objectives@) <= u64::MAX,
    ensures
        *final(rng) == after_roll(*old(rng), total_weight(weighted_objectives@) as u64),
        exists|i: int|
            roll_hits(
                weighted_objectives@,
                roll_of(*old(rng), total_weight(weighted_objectives@) as u64) as int,
                i,
            ) && res@ == (#[trigger] weighted_objectives@[i]).id@,
{
    let total = match total_weight_of(weighted_objectives) {
        Some(total) => total,
        None => 0,
    };
    let roll = random_roll(rng, total);
    select_weighted(weighted_objectives, roll)
}

/// Draws every objective in turn, as `generate_ordered_objectives` does, and
/// adds to `reports` the unknown flag-check clauses met while the objectives'
/// conditions are resolved.
pub fn generate_ordered_objectives_reporting(
    flags: &[ConfigOption],
    preferences: &[ConfigOption],
    objectives: &[Objective],
    rng: &mut RouteRng,
    reports: &mut Vec<String>,
) -> (res: Result<Vec<ObjectiveInfo>, GenerationError>)
    ensures
        *final(rng) == drawn(flags@, preferences@, objectives@, *old(rng)).2,
        views(final(reports)@) == views(old(reports)@) + drawn(
            flags@,
            preferences@,
            objectives@,
            *old(rng),
        ).3,
        valid_order(flags@, preferences@, objectives@, drawn(flags@, preferences@, objectives@, *old(rng)).0),
        res is Ok <==> drawn(flags@, preferences@, objectives@, *old(rng)).1 is Complete,
        res matches Ok(infos) ==> drawn(flags@, preferences@, objectives@, *old(rng)).0.len()
            == objectives@.len() && infos@ == order_infos(
            objectives@,
            drawn(flags@, preferences@, objectives@, *old(rng)).0,
        ),
        res matches Err(GenerationError::UnresolvedObjectives(_)) <==> drawn(
            flags@,
            preferences@,
            objectives@,
            *old(rng),
        ).1 is Stuck,
        res matches Err(GenerationError::UnresolvedObjectives(left)) ==> views(left@)
            == remaining_ids(objectives@, drawn(flags@, preferences@, objectives@, *old(rng)).0),
        res matches Err(GenerationError::NoWeight) <==> drawn(
            flags@,
            preferences@,
            objectives@,
            *old(rng),
        ).1 is Weightless,
        res matches Err(GenerationError::WeightOverflow) <==> drawn(
            flags@,
            preferences@,
            objectives@,
            *old(rng),
        ).1 is Overflow,
{
    let ghost full = drawn(flags@, preferences@, objectives@, *rng);
    let ghost first_reports = views(reports@);
    let mut completed: Vec<String> = Vec::new();
    let mut ordered_objectives: Vec<ObjectiveInfo> = Vec::new();
    proof {
        assert(views(completed@) =~= Seq::<Seq<char>>::empty());
        assert(ordered_objectives@ =~= order_infos(objectives@, views(completed@)));
        assert(views(reports@) + full.3 =~= first_reports + full.3);
    }
    while completed.len() < objectives.len()
        invariant
            completed@.len() <= objectives@.len(),
            full == drawn(flags@, preferences@, objectives@, *old(rng)),
            first_reports == views(old(reports)@),
            valid_order(flags@, preferences@, objectives@, views(completed@)),
            ordered_objectives@ == order_infos(objectives@, views(completed@)),
            full.0 == draw_from(flags@, preferences@, objectives@, views(completed@), *rng).0,
            full.1 == draw_from(flags@, preferences@, objectives@, views(completed@), *rng).1,
            full.2 == draw_from(flags@, preferences@, objectives@, views(completed@), *rng).2,
            first_reports + full.3 == views(reports@) + draw_from(
                flags@,
                preferences@,
                objectives@,
                views(completed@),
                *rng,
            ).3,
        decreases objectives@.len() - completed@.len(),
    {
        let ghost done = views(completed@);
        let ghost before = views(reports@);
        let ghost rng_before = *rng;
        let ghost step = draw_from(flags@, preferences@, objectives@, done, rng_before);
        let ghost seen = open_reports(flags@, objectives@, done, objectives@.len() as int);
        let possible_objective_ids = possible_objectives_ids_reporting(
            flags,
            objectives,
            &completed,
            reports,
        );
        assert(views(reports@) == before + seen);
        if possible_objective_ids.len() == 0 {
            let left = remaining_objective_ids(&completed, objectives);
            assert(step == (done, DrawEnd::Stuck, rng_before, seen));
            assert(first_reports + full.3 == before + step.3);
            return Err(GenerationError::UnresolvedObjectives(left));
        }
        proof {
            assert forall|i: int| 0 <= i < possible_objective_ids@.len() implies has_id(
                objectives@,
                #[trigger] possible_objective_ids@[i]@,
            ) by {
                let x = possible_objective_ids@[i]@;
                assert(views(possible_objective_ids@)[i] == x);
                lemma_open_member(flags@, objectives@, done, objectives@.len() as int, x);
            }
        }
        let weighted_objectives = build_weighted_objectives(
            preferences,
            &possible_objective_ids,
            objectives,
        );
        let ghost open = views(possible_objective_ids@);
        proof {
            assert forall|i: int| 0 <= i < weighted_objectives@.len() implies (
            #[trigger] weighted_objectives@[i]).weight == weight_of_id(
                preferences@,
                objectives@,
                open[i],
            ) by {
                assert(open[i] == possible_objective_ids@[i]@);
            }
            lemma_weights_add_up(preferences@, objectives@, open, weighted_objectives@);
        }
        let total = match total_weight_of(&weighted_objectives) {
            Some(total) => total,
            None => {
                assert(step == (done, DrawEnd::Overflow, rng_before, seen));
                assert(first_reports + full.3 == before + step.3);
                return Err(GenerationError::WeightOverflow);
            },
        };
        if total == 0 {
            assert(step == (done, DrawEnd::Weightless, rng_before, seen));
            assert(first_reports + full.3 == before + step.3);
            return Err(GenerationError::NoWeight);
        }
        let next_objective_id = random_weighted_objective(&weighted_objectives, rng);
        proof {
            let roll = roll_of(rng_before, total) as int;
            let i = choose|i: int|
                roll_hits(weighted_objectives@, roll, i) && next_objective_id@ == (
                #[trigger] weighted_objectives@[i]).id@;
            lemma_hit_is_picked(preferences@, objectives@, open, weighted_objectives@, roll, i);
            crate::weights::lemma_hit_has_weight(weighted_objectives@, roll, i);
            assert(open[i] == possible_objective_ids@[i]@);
            assert(next_objective_id@ == open[i]);
            assert(open.contains(next_objective_id@));
            assert(valid_step(flags@, preferences@, objectives@, done, next_objective_id@));
        }
        let k = find_objective(objectives, &next_objective_id);
        let ghost id_view = next_objective_id@;
        completed.push(next_objective_id);
        ordered_objectives.push(objectives[k].info.clone());
        proof {
            let order = views(completed@);
            assert(order =~= done.push(id_view));
            assert forall|j: int| 0 <= j < order.len() implies valid_step(
                flags@,
                preferences@,
                objectives@,
                order.take(j),
                #[trigger] order[j],
            ) by {
                if j < done.len() {
                    assert(order.take(j) =~= done.take(j));
                    assert(order[j] == done[j]);
                } else {
                    assert(order.take(j) =~= done);
                }
            }
            assert(ordered_objectives@ =~= order_infos(objectives@, order));
            let rest = draw_from(flags@, preferences@, objectives@, order, *rng);
            assert(step == (rest.0, rest.1, rest.2, seen + rest.3));
            assert(first_reports + full.3 =~= views(reports@) + rest.3);
        }
    }
    proof {
        let order = views(completed@);
        assert(valid_order(flags@, preferences@, objectives@, order));
        assert(views(reports@) + Seq::<Seq<char>>::empty() =~= views(reports@));
    }
    Ok(ordered_objectives)
}

/// Draws every objective in turn: each is drawn among those open once the
/// earlier ones are completed, with the weights that the preferences give, by
/// a roll of the generator below their total weight. A draw that cannot go on
/// ends in an error that says why (no objective open while some are left, the
/// open ones all of weight 0, or their weights past `u64::MAX`), and the route
/// is not drawn.
pub fn generate_ordered_objectives(
    flags: &[ConfigOption],
    preferences: &[ConfigOption],
    objectives: &[Objective],
    rng: &mut RouteRng,
) -> (res: Result<Vec<ObjectiveInfo>, GenerationError>)
    ensures
        *final(rng) == drawn(flags@, preferences@, objectives@, *old(rng)).2,
        valid_order(flags@, preferences@, objectives@, drawn(flags@, preferences@, objectives@, *old(rng)).0),
        res is Ok <==> drawn(flags@, preferences@, objectives@, *old(rng)).1 is Complete,
        res matches Ok(infos) ==> drawn(flags@, preferences@, objectives@, *old(rng)).0.len()
            == objectives@.len() && infos@ == order_infos(
            objectives@,
            drawn(flags@, preferences@, objectives@, *old(rng)).0,
        ),
        res matches Err(GenerationError::UnresolvedObjectives(_)) <==> drawn(
            flags@,
            preferences@,
            objectives@,
            *old(rng),
        ).1 is Stuck,
        res matches Err(GenerationError::UnresolvedObjectives(left)) ==> views(left@)
            == remaining_ids(objectives@, drawn(flags@, preferences@, objectives@, *old(rng)).0),
        res matches Err(GenerationError::NoWeight) <==> drawn(
            flags@,
            preferences@,
            objectives@,
            *old(rng),
        ).1 is Weightless,
        res matches Err(GenerationError::WeightOverflow) <==> drawn(
            flags@,
            preferences@,
            objectives@,
            *old(rng),
        ).1 is Overflow,
{
    let mut reports: Vec<String> = Vec::new();
    generate_ordered_objectives_reporting(flags, preferences, objectives, rng, &mut reports)
}

/// The infos of the options, in order.
fn infos_of(options: &[ConfigOption]) -> (res: Vec<BasicInfo>)
    ensures
        res@ == options@.map_values(|o: ConfigOption| o.info),
{
    let mut infos: Vec<BasicInfo> = Vec::new();
    let mut i: usize = 0;
    while i < options.len()
        invariant
            0 <= i <= options@.len(),
            infos@ == options@.take(i as int).map_values(|o: ConfigOption| o.info),
        decreases options@.len() - i,
    {
        infos.push(options[i].info.clone());
        assert(options@.take(i + 1).map_values(|o: ConfigOption| o.info) =~= options@.take(
            i as int,
        ).map_values(|o: ConfigOption| o.info).push(options@[i as int].info));
        i = i + 1;
    }
    assert(options@.take(i as int) =~= options@);
    infos
}

/// The route as written out: the inputs, with the flags and preferences
/// reduced to their infos.
pub fn build_generated_route(
    app_version: String,
    game_name: String,
    seed: u64,
    flags: Vec<ConfigOption>,
    preferences: Vec<ConfigOption>,
    ordered_objectives: Vec<ObjectiveInfo>,
) -> (res: Route)
    ensures
        res.app_version == app_version,
        res.game_name == game_name,
        res.seed == seed,
        res.flags@ == flags@.map_values(|o: ConfigOption| o.info),
        res.preferences@ == preferences@.map_values(|o: ConfigOption| o.info),
        res.ordered_objectives == ordered_objectives,
{
    Route {
        app_version,
        game_name,
        seed,
        flags: infos_of(flags.as_slice()),
        preferences: infos_of(preferences.as_slice()),
        ordered_objectives,
    }
}

} // verus!
