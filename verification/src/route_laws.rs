//! What every drawn route satisfies, whatever the generator drew.
use vstd::prelude::*;

use crate::conditions::{condition_holds, objective_open};
use crate::data::models::{Condition, ConfigOption, Objective};
use crate::generation::{lemma_open_member, valid_order, valid_step};

verus! {

/// No two objectives share an id.
pub open spec fn ids_distinct(objs: Seq<Objective>) -> bool {
    forall|a: int, b: int|
        0 <= a < objs.len() && 0 <= b < objs.len() && a != b ==> objs[a].id@ != objs[b].id@
}

/// The id drawn at position `k` is that of a given objective which was open
/// once the ids before it were completed.
pub proof fn lemma_drawn_objective_was_open(
    flags: Seq<ConfigOption>,
    prefs: Seq<ConfigOption>,
    objs: Seq<Objective>,
    order: Seq<Seq<char>>,
    k: int,
) -> (m: int)
    requires
        valid_order(flags, prefs, objs, order),
        0 <= k < order.len(),
    ensures
        0 <= m < objs.len(),
        objs[m].id@ == order[k],
        objective_open(flags, objs[m], order.take(k), objs.len() as int),
{
    assert(valid_step(flags, prefs, objs, order.take(k), order[k]));
    lemma_open_member(flags, objs, order.take(k), objs.len() as int, order[k]);
    choose|m: int|
        0 <= m < objs.len() && objs[m].id@ == order[k] && objective_open(
            flags,
            #[trigger] objs[m],
            order.take(k),
            objs.len() as int,
        )
}

/// A route never draws an id twice.
pub proof fn lemma_route_never_repeats(
    flags: Seq<ConfigOption>,
    prefs: Seq<ConfigOption>,
    objs: Seq<Objective>,
    order: Seq<Seq<char>>,
)
    requires
        valid_order(flags, prefs, objs, order),
    ensures
        order.no_duplicates(),
{
    assert forall|i: int, j: int|
        0 <= i < order.len() && 0 <= j < order.len() && i != j implies order[i] != order[j] by {
        let (a, b) = if i < j {
            (i, j)
        } else {
            (j, i)
        };
        let m = lemma_drawn_objective_was_open(flags, prefs, objs, order, b);
        assert(order.take(b)[a] == order[a]);
        assert(!order.take(b).contains(order[b]));
    }
}

/// A complete route over objectives with distinct ids draws every objective
/// (and, by `lemma_route_never_repeats`, each exactly once).
pub proof fn lemma_complete_route_draws_every_objective(
    flags: Seq<ConfigOption>,
    prefs: Seq<ConfigOption>,
    objs: Seq<Objective>,
    order: Seq<Seq<char>>,
)
    requires
        ids_distinct(objs),
        valid_order(flags, prefs, objs, order),
        order.len() == objs.len(),
    ensures
        forall|m: int| 0 <= m < objs.len() ==> order.contains(#[trigger] objs[m].id@),
{
    broadcast use vstd::seq_lib::seq_to_set_is_finite;

    let ids = objs.map_values(|o: Objective| o.id@);
    let all = ids.to_set();
    let drawn = order.to_set();
    ids.lemma_cardinality_of_set();
    lemma_route_never_repeats(flags, prefs, objs, order);
    order.unique_seq_to_set();
    assert forall|x: Seq<char>| drawn.contains(x) implies all.contains(x) by {
        let k = choose|k: int| 0 <= k < order.len() && order[k] == x;
        let m = lemma_drawn_objective_was_open(flags, prefs, objs, order, k);
        assert(ids[m] == x);
    }
    assert forall|m: int| 0 <= m < objs.len() implies order.contains(#[trigger] objs[m].id@) by {
        let x = objs[m].id@;
        assert(ids[m] == x);
        if !drawn.contains(x) {
            drawn.lemma_subset_not_in_lt(all, x);
        }
    }
}

/// An objective is drawn only when its condition holds for the objectives drawn before it.
pub proof fn lemma_condition_holds_when_drawn(
    flags: Seq<ConfigOption>,
    prefs: Seq<ConfigOption>,
    objs: Seq<Objective>,
    order: Seq<Seq<char>>,
    j: int,
    k: int,
)
    requires
        ids_distinct(objs),
        valid_order(flags, prefs, objs, order),
        0 <= j < objs.len(),
        0 <= k < order.len(),
        order[k] == objs[j].id@,
        objs[j].condition is Some,
    ensures
        condition_holds(flags, objs[j].condition.unwrap(), order.take(k), objs.len() as int),
{
    let m = lemma_drawn_objective_was_open(flags, prefs, objs, order, k);
    assert(m == j);
}

/// An objective whose condition is `End` can only be drawn last.
pub proof fn lemma_end_objective_is_last(
    flags: Seq<ConfigOption>,
    prefs: Seq<ConfigOption>,
    objs: Seq<Objective>,
    order: Seq<Seq<char>>,
    j: int,
    k: int,
)
    requires
        ids_distinct(objs),
        valid_order(flags, prefs, objs, order),
        0 <= j < objs.len(),
        0 <= k < order.len(),
        order[k] == objs[j].id@,
        objs[j].condition matches Some(Condition::End(_)),
    ensures
        k == objs.len() - 1,
{
    lemma_condition_holds_when_drawn(flags, prefs, objs, order, j, k);
}

/// An objective whose condition is a node naming another objective is drawn
/// only after that objective.
pub proof fn lemma_prerequisite_drawn_first(
    flags: Seq<ConfigOption>,
    prefs: Seq<ConfigOption>,
    objs: Seq<Objective>,
    order: Seq<Seq<char>>,
    j: int,
    k: int,
)
    requires
        ids_distinct(objs),
        valid_order(flags, prefs, objs, order),
        0 <= j < objs.len(),
        0 <= k < order.len(),
        order[k] == objs[j].id@,
        objs[j].condition matches Some(Condition::Node(n)) && n.objective_id is Some,
    ensures
        order.take(k).contains(
            objs[j].condition.unwrap()->Node_0.objective_id.unwrap()@,
        ),
{
    lemma_condition_holds_when_drawn(flags, prefs, objs, order, j, k);
}

} // verus!
