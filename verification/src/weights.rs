//! How strongly each open objective is drawn, and which one a roll picks.
use vstd::prelude::*;

use crate::data::models::{ConfigOption, Objective, WeightedObjective, Weighting};

verus! {

/// The weight that `prefs` give through the map `m`: that of the first
/// preference (in the order of `prefs`) that `m` names, and 1 if it names none.
pub open spec fn preferred_weight(prefs: Seq<ConfigOption>, m: Map<Seq<char>, u64>) -> u64
    decreases prefs.len(),
{
    if prefs.len() == 0 {
        1
    } else if m.contains_key(prefs[0].id@) {
        m[prefs[0].id@]
    } else {
        preferred_weight(prefs.drop_first(), m)
    }
}

/// The weight of an objective with this weighting: 1 when it has none.
pub open spec fn objective_weight(prefs: Seq<ConfigOption>, weighting: Option<Weighting>) -> u64 {
    match weighting {
        Some(w) => preferred_weight(prefs, w@),
        None => 1,
    }
}

/// `k` is the first index of an objective with this id.
pub open spec fn is_first_with_id(objs: Seq<Objective>, id: Seq<char>, k: int) -> bool {
    &&& 0 <= k < objs.len()
    &&& objs[k].id@ == id
    &&& forall|j: int| 0 <= j < k ==> objs[j].id@ != id
}

/// Some objective has this id.
pub open spec fn has_id(objs: Seq<Objective>, id: Seq<char>) -> bool {
    exists|k: int| 0 <= k < objs.len() && objs[k].id@ == id
}

/// The first index of an objective with this id.
pub open spec fn first_index(objs: Seq<Objective>, id: Seq<char>) -> int {
    choose|k: int| is_first_with_id(objs, id, k)
}

/// The weight of the (first) objective with this id.
pub open spec fn weight_of_id(prefs: Seq<ConfigOption>, objs: Seq<Objective>, id: Seq<char>) -> u64 {
    objective_weight(prefs, objs[first_index(objs, id)].weighting)
}

/// The sum of the weights.
pub open spec fn total_weight(ws: Seq<WeightedObjective>) -> int
    decreases ws.len(),
{
    if ws.len() == 0 {
        0
    } else {
        total_weight(ws.drop_last()) + ws.last().weight
    }
}

/// `roll` falls in the share of entry `i`: at least the weights before it,
/// below those up to and including it.
pub open spec fn roll_hits(ws: Seq<WeightedObjective>, roll: int, i: int) -> bool {
    &&& 0 <= i < ws.len()
    &&& total_weight(ws.take(i)) <= roll < total_weight(ws.take(i + 1))
}

/// A first index, if there is one, is the only first index.
pub proof fn lemma_first_index(objs: Seq<Objective>, id: Seq<char>, k: int)
    requires
        is_first_with_id(objs, id, k),
    ensures
        first_index(objs, id) == k,
{
    let f = first_index(objs, id);
    assert(is_first_with_id(objs, id, f));
    if f < k {
        assert(objs[f].id@ != id);
    }
    if k < f {
        assert(objs[k].id@ != id);
    }
}

/// An id that some objective has has a first index.
pub proof fn lemma_has_first_index(objs: Seq<Objective>, id: Seq<char>)
    requires
        has_id(objs, id),
    ensures
        is_first_with_id(objs, id, first_index(objs, id)),
    decreases objs.len(),
{
    if objs[0].id@ == id {
        lemma_first_index(objs, id, 0);
    } else {
        let rest = objs.drop_first();
        let k = choose|k: int| 0 <= k < objs.len() && objs[k].id@ == id;
        assert(rest[k - 1].id@ == id);
        lemma_has_first_index(rest, id);
        let f = first_index(rest, id);
        assert forall|j: int| 0 <= j < f + 1 implies objs[j].id@ != id by {
            if j > 0 {
                assert(objs[j] == rest[j - 1]);
            }
        }
        assert(is_first_with_id(objs, id, f + 1));
        lemma_first_index(objs, id, f + 1);
    }
}

/// A prefix weighs no more than the whole.
pub proof fn lemma_prefix_weight(ws: Seq<WeightedObjective>, i: int)
    requires
        0 <= i <= ws.len(),
    ensures
        0 <= total_weight(ws.take(i)) <= total_weight(ws),
    decreases ws.len() - i,
{
    if i == ws.len() {
        assert(ws.take(i) =~= ws);
        lemma_total_nonneg(ws);
    } else {
        lemma_prefix_weight(ws, i + 1);
        lemma_total_nonneg(ws.take(i));
        assert(ws.take(i + 1).drop_last() =~= ws.take(i));
        assert(total_weight(ws.take(i + 1)) == total_weight(ws.take(i)) + ws[i].weight);
    }
}

/// Weights are never negative.
pub proof fn lemma_total_nonneg(ws: Seq<WeightedObjective>)
    ensures
        total_weight(ws) >= 0,
    decreases ws.len(),
{
    if ws.len() > 0 {
        lemma_total_nonneg(ws.drop_last());
    }
}

/// A roll hits at most one entry: the pick is determined by the roll.
pub proof fn lemma_roll_hits_one(ws: Seq<WeightedObjective>, roll: int, i: int, j: int)
    requires
        roll_hits(ws, roll, i),
        roll_hits(ws, roll, j),
    ensures
        i == j,
{
    if i < j {
        lemma_prefix_weight(ws.take(j), i + 1);
        assert(ws.take(j).take(i + 1) =~= ws.take(i + 1));
        assert(ws.take(j) =~= ws.take(j));
    }
    if j < i {
        lemma_prefix_weight(ws.take(i), j + 1);
        assert(ws.take(i).take(j + 1) =~= ws.take(j + 1));
    }
}

/// An entry that a roll hits has a positive weight: entries of weight 0 are never picked.
pub proof fn lemma_hit_has_weight(ws: Seq<WeightedObjective>, roll: int, i: int)
    requires
        roll_hits(ws, roll, i),
    ensures
        ws[i].weight > 0,
{
    assert(ws.take(i + 1).drop_last() =~= ws.take(i));
    assert(ws.take(i + 1).last() == ws[i]);
}

/// Every entry of positive weight is picked by some roll below the total:
/// the one at the start of its share.
pub proof fn lemma_positive_weight_is_reachable(ws: Seq<WeightedObjective>, i: int)
    requires
        0 <= i < ws.len(),
        ws[i].weight > 0,
    ensures
        total_weight(ws.take(i)) < total_weight(ws),
        roll_hits(ws, total_weight(ws.take(i)), i),
{
    assert(ws.take(i + 1).drop_last() =~= ws.take(i));
    assert(ws.take(i + 1).last() == ws[i]);
    lemma_prefix_weight(ws, i + 1);
}

/// The weight that the preferences give an objective: the weight its weighting
/// gives the first preference it names, and 1 when it names none or has none.
pub fn get_weight(preferences: &[ConfigOption], optional_weighting: &Option<Weighting>) -> (res: u64)
    ensures
        res == objective_weight(preferences@, *optional_weighting),
{
    if let Some(weighting) = optional_weighting {
        assert(preferences@.skip(0) =~= preferences@);
        let mut i: usize = 0;
        while i < preferences.len()
            invariant
                0 <= i <= preferences@.len(),
                objective_weight(preferences@, *optional_weighting) == preferred_weight(
                    preferences@,
                    weighting@,
                ),
                preferred_weight(preferences@, weighting@) == preferred_weight(
                    preferences@.skip(i as int),
                    weighting@,
                ),
            decreases preferences@.len() - i,
        {
            let ghost rest = preferences@.skip(i as int);
            assert(rest[0] == preferences@[i as int]);
            assert(rest.drop_first() =~= preferences@.skip(i + 1));
            if let Some(weight) = weighting.get(&preferences[i].id) {
                assert(rest.len() > 0);
                assert(weighting@.contains_key(rest[0].id@));
                assert(preferred_weight(rest, weighting@) == weight);
                return weight;
            }
            i = i + 1;
        }
        assert(preferences@.skip(i as int).len() == 0);
    }
    1
}

/// The index of the first objective with this id.
pub fn find_objective(objectives: &[Objective], id: &String) -> (res: usize)
    requires
        has_id(objectives@, id@),
    ensures
        is_first_with_id(objectives@, id@, res as int),
        res == first_index(objectives@, id@),
{
    let mut i: usize = 0;
    while i < objectives.len()
        invariant
            0 <= i <= objectives@.len(),
            has_id(objectives@, id@),
            forall|j: int| 0 <= j < i ==> objectives@[j].id@ != id@,
        decreases objectives@.len() - i,
    {
        if objectives[i].id == *id {
            proof {
                lemma_first_index(objectives@, id@, i as int);
            }
            return i;
        }
        i = i + 1;
    }
    proof {
        let k = choose|k: int| 0 <= k < objectives@.len() && objectives@[k].id@ == id@;
        assert(objectives@[k].id@ != id@);
    }
    0
}

/// Each id paired with the weight of the first objective that has it.
pub fn build_weighted_objectives(
    preferences: &[ConfigOption],
    objective_ids: &[String],
    objectives: &[Objective],
) -> (res: Vec<WeightedObjective>)
    requires
        forall|i: int| 0 <= i < objective_ids@.len() ==> has_id(objectives@, #[trigger] objective_ids@[i]@),
    ensures
        res@.len() == objective_ids@.len(),
        forall|i: int|
            0 <= i < res@.len() ==> (#[trigger] res@[i]).id@ == objective_ids@[i]@ && res@[i].weight
                == weight_of_id(preferences@, objectives@, objective_ids@[i]@),
{
    let mut weighted: Vec<WeightedObjective> = Vec::new();
    let mut i: usize = 0;
    while i < objective_ids.len()
        invariant
            0 <= i <= objective_ids@.len(),
            weighted@.len() == i,
            forall|i: int| 0 <= i < objective_ids@.len() ==> has_id(objectives@, #[trigger] objective_ids@[i]@),
            forall|j: int|
                0 <= j < i ==> (#[trigger] weighted@[j]).id@ == objective_ids@[j]@ && weighted@[j].weight
                    == weight_of_id(preferences@, objectives@, objective_ids@[j]@),
        decreases objective_ids@.len() - i,
    {
        let objective_id = &objective_ids[i];
        assert(has_id(objectives@, objective_ids@[i as int]@));
        let k = find_objective(objectives, objective_id);
        let objective = &objectives[k];
        let weight = get_weight(preferences, &objective.weighting);
        weighted.push(WeightedObjective { id: objective.id.clone(), weight });
        i = i + 1;
    }
    weighted
}

/// The sum of the weights, if it fits in a `u64`.
pub fn total_weight_of(weighted_objectives: &[WeightedObjective]) -> (res: Option<u64>)
    ensures
        res matches Some(t) ==> t == total_weight(weighted_objectives@),
        res is None <==> total_weight(weighted_objectives@) > u64::MAX,
{
    let ghost ws = weighted_objectives@;
    let mut total: u64 = 0;
    let mut i: usize = 0;
    assert(ws.take(0) =~= Seq::<WeightedObjective>::empty());
    while i < weighted_objectives.len()
        invariant
            ws == weighted_objectives@,
            0 <= i <= ws.len(),
            total == total_weight(ws.take(i as int)),
        decreases ws.len() - i,
    {
        proof {
            assert(ws.take(i + 1).drop_last() =~= ws.take(i as int));
            assert(ws.take(i + 1).last() == ws[i as int]);
        }
        match total.checked_add(weighted_objectives[i].weight) {
            Some(sum) => {
                total = sum;
            },
            None => {
                proof {
                    lemma_prefix_weight(ws, i + 1);
                }
                return None;
            },
        }
        i = i + 1;
    }
    assert(ws.take(i as int) =~= ws);
    Some(total)
}

/// The id of the entry whose share the roll falls in, the shares being laid end
/// to end in order.
pub fn select_weighted(weighted_objectives: &[WeightedObjective], roll: u64) -> (res: String)
    requires
        roll < total_weight(weighted_objectives@),
    ensures
        exists|i: int|
            roll_hits(weighted_objectives@, roll as int, i) && res@ == (
            #[trigger] weighted_objectives@[i]).id@,
{
    let ghost ws = weighted_objectives@;
    let mut rest = roll;
    let mut i: usize = 0;
    proof {
        assert(ws.take(0) =~= Seq::<WeightedObjective>::empty());
        if ws.len() == 0 {
            assert(total_weight(ws) == 0);
        }
    }
    loop
        invariant
            ws == weighted_objectives@,
            roll < total_weight(ws),
            0 <= i < ws.len(),
            total_weight(ws.take(i as int)) <= roll,
            rest == roll - total_weight(ws.take(i as int)),
        decreases ws.len() - i,
    {
        let weighted_objective = &weighted_objectives[i];
        proof {
            assert(ws.take(i + 1).drop_last() =~= ws.take(i as int));
            assert(ws.take(i + 1).last() == ws[i as int]);
        }
        if rest < weighted_objective.weight {
            assert(roll_hits(ws, roll as int, i as int));
            return weighted_objective.id.clone();
        }
        rest = rest - weighted_objective.weight;
        proof {
            if i + 1 == ws.len() {
                assert(ws.take(i + 1) =~= ws);
            }
        }
        i = i + 1;
    }
}


/// The weight that `prefs` give through `m` is `m`'s value for `prefs[k]` when
/// `m` names `prefs[k]` and none of the preferences before it, however far
/// down the list `k` is.
proof fn lemma_preferred_at(prefs: Seq<ConfigOption>, m: Map<Seq<char>, u64>, k: int)
    requires
        0 <= k < prefs.len(),
        m.contains_key(prefs[k].id@),
        forall|j: int| 0 <= j < k ==> !m.contains_key(#[trigger] prefs[j].id@),
    ensures
        preferred_weight(prefs, m) == m[prefs[k].id@],
    decreases k,
{
    if k > 0 {
        let rest = prefs.drop_first();
        assert(!m.contains_key(prefs[0].id@));
        assert forall|j: int| 0 <= j < k - 1 implies !m.contains_key(#[trigger] rest[j].id@) by {
            assert(rest[j] == prefs[j + 1]);
        }
        assert(rest[k - 1] == prefs[k]);
        lemma_preferred_at(rest, m, k - 1);
    }
}

/// The weight that `prefs` give through `m` is 1 when `m` names none of them.
proof fn lemma_preferred_none(prefs: Seq<ConfigOption>, m: Map<Seq<char>, u64>)
    requires
        forall|j: int| 0 <= j < prefs.len() ==> !m.contains_key(#[trigger] prefs[j].id@),
    ensures
        preferred_weight(prefs, m) == 1,
    decreases prefs.len(),
{
    if prefs.len() > 0 {
        let rest = prefs.drop_first();
        assert(!m.contains_key(prefs[0].id@));
        assert forall|j: int| 0 <= j < rest.len() implies !m.contains_key(#[trigger] rest[j].id@) by {
            assert(rest[j] == prefs[j + 1]);
        }
        lemma_preferred_none(rest, m);
    }
}

/// An objective's weight is what its weighting gives the first preference (in
/// the order of the preferences) that the weighting names, however far down
/// the list that preference is; it is 1 when the objective has no weighting or
/// its weighting names none of the preferences.
pub proof fn lemma_first_named_preference_weighs(
    prefs: Seq<ConfigOption>,
    weighting: Option<Weighting>,
    k: int,
)
    ensures
        weighting is None ==> objective_weight(prefs, weighting) == 1,
        weighting matches Some(w) ==> ((forall|j: int|
            0 <= j < prefs.len() ==> !w@.contains_key(#[trigger] prefs[j].id@)) ==> objective_weight(
            prefs,
            weighting,
        ) == 1),
        weighting matches Some(w) ==> (0 <= k < prefs.len() && w@.contains_key(prefs[k].id@) && (
        forall|j: int| 0 <= j < k ==> !w@.contains_key(#[trigger] prefs[j].id@))
            ==> objective_weight(prefs, weighting) == w@[prefs[k].id@]),
{
    if let Some(w) = weighting {
        if forall|j: int| 0 <= j < prefs.len() ==> !w@.contains_key(#[trigger] prefs[j].id@) {
            lemma_preferred_none(prefs, w@);
        }
        if 0 <= k < prefs.len() && w@.contains_key(prefs[k].id@) && (forall|j: int|
            0 <= j < k ==> !w@.contains_key(#[trigger] prefs[j].id@)) {
            lemma_preferred_at(prefs, w@, k);
        }
    }
}


/// The total weight of two lists laid end to end is the sum of their totals,
/// and that of one entry is its weight.
pub proof fn lemma_total_weight_adds(a: Seq<WeightedObjective>, b: Seq<WeightedObjective>, w: WeightedObjective)
    ensures
        total_weight(seq![w]) == w.weight,
        total_weight(a + b) == total_weight(a) + total_weight(b),
    decreases b.len(),
{
    assert(seq![w].drop_last() =~= Seq::<WeightedObjective>::empty());
    assert(seq![w].last() == w);
    assert(total_weight(Seq::<WeightedObjective>::empty()) == 0);
    if b.len() == 0 {
        assert(a + b =~= a);
    } else {
        assert((a + b).drop_last() =~= a + b.drop_last());
        assert((a + b).last() == b.last());
        lemma_total_weight_adds(a, b.drop_last(), w);
    }
}

} // verus!
