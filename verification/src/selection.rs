//! Turning the player's answers into selections: the lists of choices that
//! are put to the player, and what each answer selects.
use vstd::prelude::*;

use crate::data::models::{BasicInfo, ConfigOption, Game};

verus! {

/// Something that has a name and a description to show.
pub trait Informable: Clone {
    /// The name and description.
    spec fn basic_info(&self) -> BasicInfo;

    fn info(self) -> (res: BasicInfo)
        ensures
            res == self.basic_info(),
    ;
}

impl Informable for ConfigOption {
    open spec fn basic_info(&self) -> BasicInfo {
        self.info
    }

    fn info(self) -> (res: BasicInfo) {
        self.info
    }
}

/// The names of the games, in order: the choices put to the player.
pub fn game_choices(games: &[Game]) -> (res: Vec<String>)
    ensures
        res@.len() == games@.len(),
        forall|i: int| 0 <= i < games@.len() ==> (#[trigger] res@[i]) == games@[i].name,
{
    let mut choices: Vec<String> = Vec::new();
    let mut i: usize = 0;
    while i < games.len()
        invariant
            0 <= i <= games@.len(),
            choices@.len() == i,
            forall|j: int| 0 <= j < i ==> (#[trigger] choices@[j]) == games@[j].name,
        decreases games@.len() - i,
    {
        choices.push(games[i].name.clone());
        i = i + 1;
    }
    choices
}

/// The game that the answer `choice` (an index into the choices) selects.
pub fn ask_game_selection<'a>(games: &'a [Game], choice: usize) -> (res: &'a Game)
    requires
        choice < games@.len(),
    ensures
        *res == games@[choice as int],
{
    &games[choice]
}

/// `name` is the name of a clone of `selection`.
pub open spec fn is_clone_name<T: Informable>(selection: T, name: String) -> bool {
    exists|c: T| #[trigger] cloned::<T>(selection, c) && name == c.basic_info().name
}

/// The names of (clones of) the selections, in order: the choices put to the player.
pub fn selection_choices<T: Informable>(selections: &[T]) -> (res: Vec<String>)
    ensures
        res@.len() == selections@.len(),
        forall|i: int|
            0 <= i < selections@.len() ==> is_clone_name(selections@[i], #[trigger] res@[i]),
{
    let mut choices: Vec<String> = Vec::new();
    let mut i: usize = 0;
    while i < selections.len()
        invariant
            0 <= i <= selections@.len(),
            choices@.len() == i,
            forall|j: int| 0 <= j < i ==> is_clone_name(selections@[j], #[trigger] choices@[j]),
        decreases selections@.len() - i,
    {
        let copy = selections[i].clone();
        let ghost c = copy;
        let info = copy.info();
        choices.push(info.name);
        assert(cloned::<T>(selections@[i as int], c) && choices@[i as int] == c.basic_info().name);
        assert(is_clone_name(selections@[i as int], choices@[i as int]));
        i = i + 1;
    }
    choices
}

/// What the answer `choice` selects: nothing when there is nothing to select,
/// else a clone of the selection at that index.
pub fn ask_selection<T: Informable>(selections: &[T], choice: usize) -> (res: Option<T>)
    requires
        selections@.len() > 0 ==> choice < selections@.len(),
    ensures
        selections@.len() == 0 ==> res is None,
        selections@.len() > 0 ==> (res matches Some(r) && cloned::<T>(selections@[choice as int], r)),
{
    if selections.len() == 0 {
        return None;
    }
    Some(selections[choice].clone())
}

/// What the answers `decisions` (indices into the choices) select: clones of
/// the selections at those indices, in the order of the decisions.
pub fn ask_selections<T: Informable>(selections: &[T], decisions: &[usize]) -> (res: Vec<T>)
    requires
        selections@.len() > 0 ==> forall|i: int|
            0 <= i < decisions@.len() ==> #[trigger] decisions@[i] < selections@.len(),
    ensures
        selections@.len() == 0 ==> res@.len() == 0,
        selections@.len() > 0 ==> res@.len() == decisions@.len() && forall|i: int|
            0 <= i < decisions@.len() ==> cloned::<T>(
                selections@[decisions@[i] as int],
                #[trigger] res@[i],
            ),
{
    let mut chosen: Vec<T> = Vec::new();
    if selections.len() == 0 {
        return chosen;
    }
    let mut i: usize = 0;
    while i < decisions.len()
        invariant
            0 <= i <= decisions@.len(),
            selections@.len() > 0,
            forall|i: int| 0 <= i < decisions@.len() ==> #[trigger] decisions@[i] < selections@.len(),
            chosen@.len() == i,
            forall|j: int|
                0 <= j < i ==> cloned::<T>(selections@[decisions@[j] as int], #[trigger] chosen@[j]),
        decreases decisions@.len() - i,
    {
        let decision = decisions[i];
        chosen.push(selections[decision].clone());
        i = i + 1;
    }
    chosen
}

/// The game named by the answer `choice`, which counts from 1.
pub fn get_game_selection(games: &[String], choice: usize) -> (res: String)
    requires
        1 <= choice <= games@.len(),
    ensures
        res == games@[choice - 1],
{
    games[choice - 1].clone()
}

} // verus!
