use vstd::prelude::*;

verus! {

/// A name and a description, as shown to the player.
#[derive(Debug, PartialEq, Eq)]
pub struct BasicInfo {
    pub name: String,
    pub description: String,
}

impl Clone for BasicInfo {
    fn clone(&self) -> (res: Self)
        ensures
            res == *self,
    {
        BasicInfo { name: self.name.clone(), description: self.description.clone() }
    }
}

/// A flag or a preference that the player can select.
#[derive(Debug, PartialEq, Eq)]
pub struct ConfigOption {
    pub id: String,
    pub info: BasicInfo,
}

impl Clone for ConfigOption {
    fn clone(&self) -> (res: Self)
        ensures
            res == *self,
    {
        ConfigOption { id: self.id.clone(), info: self.info.clone() }
    }
}

/// What is shown of an objective in a generated route.
#[derive(Debug, PartialEq, Eq)]
pub struct ObjectiveInfo {
    pub name: String,
    pub location: String,
}

impl Clone for ObjectiveInfo {
    fn clone(&self) -> (res: Self)
        ensures
            res == *self,
    {
        ObjectiveInfo { name: self.name.clone(), location: self.location.clone() }
    }
}


/// How much each preference weighs an objective: a map from preference id to
/// weight. Each key occurs at most once, so a key has a single weight.
pub struct Weighting {
    entries: Vec<(String, u64)>,
}

/// The index of the entry whose key is `key`.
pub open spec fn key_index(entries: Seq<(String, u64)>, key: Seq<char>) -> int {
    choose|i: int| 0 <= i < entries.len() && entries[i].0@ == key
}

/// No key occurs twice.
pub open spec fn keys_distinct(entries: Seq<(String, u64)>) -> bool {
    forall|i: int, j: int|
        0 <= i < entries.len() && 0 <= j < entries.len() && i != j ==> entries[i].0@
            != entries[j].0@
}

/// The map that a list of entries with distinct keys stands for.
pub open spec fn entries_map(entries: Seq<(String, u64)>) -> Map<Seq<char>, u64> {
    Map::new(
        |k: Seq<char>| exists|i: int| 0 <= i < entries.len() && entries[i].0@ == k,
        |k: Seq<char>| entries[key_index(entries, k)].1,
    )
}

impl View for Weighting {
    type V = Map<Seq<char>, u64>;

    closed spec fn view(&self) -> Map<Seq<char>, u64> {
        entries_map(self.entries@)
    }
}

/// In a list with distinct keys, the weight of the key of entry `i` is that of entry `i`.
proof fn lemma_entries_map_at(entries: Seq<(String, u64)>, i: int)
    requires
        keys_distinct(entries),
        0 <= i < entries.len(),
    ensures
        entries_map(entries).contains_key(entries[i].0@),
        entries_map(entries)[entries[i].0@] == entries[i].1,
{
    let k = entries[i].0@;
    assert(entries[i].0@ == k);
    let j = key_index(entries, k);
    assert(j == i);
}

impl Weighting {
    #[verifier::type_invariant]
    spec fn distinct_keys(&self) -> bool {
        keys_distinct(self.entries@)
    }

    /// An empty weighting.
    pub fn new() -> (res: Self)
        ensures
            res@ == Map::<Seq<char>, u64>::empty(),
    {
        let res = Weighting { entries: Vec::new() };
        assert(res@ =~= Map::<Seq<char>, u64>::empty());
        res
    }

    /// The weight given to `key`, if any.
    pub fn get(&self, key: &String) -> (res: Option<u64>)
        ensures
            res == (if self@.contains_key(key@) {
                Some(self@[key@])
            } else {
                None::<u64>
            }),
    {
        proof {
            use_type_invariant(self);
        }
        let mut i: usize = 0;
        while i < self.entries.len()
            invariant
                0 <= i <= self.entries@.len(),
                keys_distinct(self.entries@),
                forall|j: int| 0 <= j < i ==> self.entries@[j].0@ != key@,
            decreases self.entries@.len() - i,
        {
            if self.entries[i].0 == *key {
                proof {
                    lemma_entries_map_at(self.entries@, i as int);
                }
                return Some(self.entries[i].1);
            }
            i = i + 1;
        }
        None
    }

    /// The keys with their weights, each key once.
    pub fn to_entries(&self) -> (res: Vec<(String, u64)>)
        ensures
            keys_distinct(res@),
            entries_map(res@) == self@,
    {
        proof {
            use_type_invariant(self);
        }
        let mut res: Vec<(String, u64)> = Vec::new();
        let mut i: usize = 0;
        while i < self.entries.len()
            invariant
                0 <= i <= self.entries@.len(),
                res@ == self.entries@.take(i as int),
            decreases self.entries@.len() - i,
        {
            let entry = &self.entries[i];
            res.push((entry.0.clone(), entry.1));
            assert(res@ =~= self.entries@.take(i + 1));
            i = i + 1;
        }
        assert(res@ =~= self.entries@);
        res
    }

    /// Gives `key` the weight `value`, replacing the weight it had.
    pub fn insert(&mut self, key: String, value: u64)
        ensures
            final(self)@ == old(self)@.insert(key@, value),
    {
        proof {
            use_type_invariant(&*self);
        }
        let ghost old_entries = self.entries@;
        let mut i: usize = 0;
        while i < self.entries.len()
            invariant
                0 <= i <= self.entries@.len(),
                self.entries@ == old_entries,
                old_entries == old(self).entries@,
                keys_distinct(old_entries),
                forall|j: int| 0 <= j < i ==> old_entries[j].0@ != key@,
            decreases self.entries@.len() - i,
        {
            if self.entries[i].0 == key {
                let mut entries: Vec<(String, u64)> = Vec::new();
                std::mem::swap(&mut entries, &mut self.entries);
                entries.set(i, (key, value));
                proof {
                    let ne = entries@;
                    assert(old_entries[i as int].0@ == key@);
                    assert(ne[i as int].0@ == key@);
                    assert(keys_distinct(ne));
                    assert forall|k: Seq<char>| #[trigger]
                        entries_map(ne).contains_key(k) == old(self)@.insert(
                            key@,
                            value,
                        ).contains_key(k) by {
                        if entries_map(ne).contains_key(k) {
                            let m = choose|m: int| 0 <= m < ne.len() && ne[m].0@ == k;
                            assert(old_entries[m].0@ == k);
                        }
                        if entries_map(old_entries).contains_key(k) {
                            let m = choose|m: int| 0 <= m < old_entries.len() && old_entries[m].0@ == k;
                            assert(ne[m].0@ == k);
                        }
                    }
                    assert forall|k: Seq<char>| #[trigger] entries_map(ne).contains_key(k)
                        implies entries_map(ne)[k] == old(self)@.insert(key@, value)[k] by {
                        let m = choose|m: int| 0 <= m < ne.len() && ne[m].0@ == k;
                        lemma_entries_map_at(ne, m);
                        if m != i {
                            lemma_entries_map_at(old_entries, m);
                        }
                    }
                    assert(entries_map(ne) =~= old(self)@.insert(key@, value));
                }
                self.entries = entries;
                return;
            }
            i = i + 1;
        }
        let mut entries: Vec<(String, u64)> = Vec::new();
        std::mem::swap(&mut entries, &mut self.entries);
        entries.push((key, value));
        proof {
            let ne = entries@;
            let n = old_entries.len() as int;
            assert(keys_distinct(ne));
            assert forall|k: Seq<char>| #[trigger]
                entries_map(ne).contains_key(k) == old(self)@.insert(key@, value).contains_key(
                    k,
                ) by {
                if entries_map(ne).contains_key(k) {
                    let m = choose|m: int| 0 <= m < ne.len() && ne[m].0@ == k;
                    if m < n {
                        assert(old_entries[m].0@ == k);
                    }
                }
                if entries_map(old_entries).contains_key(k) {
                    let m = choose|m: int| 0 <= m < old_entries.len() && old_entries[m].0@ == k;
                    assert(ne[m].0@ == k);
                }
                assert(ne[n].0@ == key@);
            }
            assert forall|k: Seq<char>| #[trigger] entries_map(ne).contains_key(k) implies entries_map(
                ne,
            )[k] == old(self)@.insert(key@, value)[k] by {
                let m = choose|m: int| 0 <= m < ne.len() && ne[m].0@ == k;
                lemma_entries_map_at(ne, m);
                if m != n {
                    lemma_entries_map_at(old_entries, m);
                }
            }
            assert(entries_map(ne) =~= old(self)@.insert(key@, value));
        }
        self.entries = entries;
    }
}

/// The game's list of what a data directory offers.
pub struct Meta {
    pub app_version: String,
    pub games: Vec<Game>,
}

/// A game that routes can be generated for.
pub struct Game {
    pub name: String,
    pub file_name: String,
}

/// Everything a game offers: its flags, preferences, objectives and routes.
pub struct Schema {
    pub file_version: String,
    pub flags: Vec<ConfigOption>,
    pub preferences: Vec<ConfigOption>,
    pub objectives: Vec<Objective>,
    pub routes: Vec<ConfigOption>,
}

/// One objective of a game.
pub struct Objective {
    pub id: String,
    pub info: ObjectiveInfo,
    pub flag_checks: Option<Vec<FlagCheck>>,
    pub weighting: Option<Weighting>,
    pub routes: Option<Vec<String>>,
    pub condition: Option<Condition>,
}

/// An objective id with the weight it is drawn with.
pub struct WeightedObjective {
    pub id: String,
    pub weight: u64,
}

/// When an objective becomes available.
pub enum Condition {
    Branch(ConditionBranch),
    Node(ConditionNode),
    End(ConditionEnd),
}

/// A combination of sub-conditions: `all`, `any` or `any_two` of them must hold.
pub struct ConditionBranch {
    pub clause: String,
    pub labels: Option<Vec<String>>,
    pub flag_checks: Option<Vec<FlagCheck>>,
    pub conditions: Vec<Condition>,
}

/// Holds once the named objective is completed (or at once, if none is named).
pub struct ConditionNode {
    pub objective_id: Option<String>,
    pub labels: Option<Vec<String>>,
    pub flag_checks: Option<Vec<FlagCheck>>,
}

/// Holds when every other objective is completed.
pub struct ConditionEnd;

/// A generated route, as written out.
pub struct Route {
    pub app_version: String,
    pub game_name: String,
    pub seed: u64,
    pub flags: Vec<BasicInfo>,
    pub preferences: Vec<BasicInfo>,
    pub ordered_objectives: Vec<ObjectiveInfo>,
}

/// A test on the selected flags: `any`, `all` or `none` of `flag_ids` must be selected.
pub struct FlagCheck {
    pub clause: String,
    pub flag_ids: Vec<String>,
}

} // verus!
