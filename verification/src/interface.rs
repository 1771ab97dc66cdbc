//! What each line that the player types means to the prompts: which choice it
//! picks, whether it toggles one, or whether it gives a number.
use vstd::arithmetic::power::pow;
use vstd::prelude::*;

verus! {

/// A character with the Unicode White_Space property: the 25 code points
/// U+0009 to U+000D, U+0020, U+0085, U+00A0, U+1680, U+2000 to U+200A, U+2028,
/// U+2029, U+202F, U+205F and U+3000.
pub open spec fn is_white_space(c: char) -> bool {
    let u = c as int;
    ||| 0x9 <= u <= 0xD
    ||| u == 0x20
    ||| u == 0x85
    ||| u == 0xA0
    ||| u == 0x1680
    ||| 0x2000 <= u <= 0x200A
    ||| u == 0x2028
    ||| u == 0x2029
    ||| u == 0x202F
    ||| u == 0x205F
    ||| u == 0x3000
}

/// The text without its leading white space.
pub open spec fn trim_start_ws(s: Seq<char>) -> Seq<char>
    decreases s.len(),
{
    if s.len() > 0 && is_white_space(s[0]) {
        trim_start_ws(s.drop_first())
    } else {
        s
    }
}

/// The text without its trailing white space.
pub open spec fn trim_end_ws(s: Seq<char>) -> Seq<char>
    decreases s.len(),
{
    if s.len() > 0 && is_white_space(s.last()) {
        trim_end_ws(s.drop_last())
    } else {
        s
    }
}

/// The text without its leading and trailing white space.
pub open spec fn trimmed(s: Seq<char>) -> Seq<char> {
    trim_end_ws(trim_start_ws(s))
}

/// Calls `str::trim`, which std documents as removing the leading and trailing
/// characters that have the Unicode White_Space property.
#[verifier::external_body]
fn trim_input(s: &str) -> (res: &str)
    ensures
        res@ == trimmed(s@),
{
    s.trim()
}

/// Digits read in base ten: one digit is worth its own value, and digits `a`
/// followed by digits `b` are worth `a`'s value shifted past `b`'s places plus
/// `b`'s value.
pub proof fn lemma_digits_base_ten(a: Seq<char>, b: Seq<char>, c: char)
    ensures
        digits_value(seq![c]) == c as int - '0' as int,
        digits_value(a + b) == digits_value(a) * pow(10, b.len()) + digits_value(b),
    decreases b.len(),
{
    reveal(pow);
    assert(seq![c].drop_last() =~= Seq::<char>::empty());
    assert(seq![c].last() == c);
    assert(digits_value(Seq::<char>::empty()) == 0);
    assert(digits_value(seq![c]) == digits_value(seq![c].drop_last()) * 10 + (c as int - '0' as int));
    if b.len() == 0 {
        assert(a + b =~= a);
        assert(pow(10, 0) == 1);
    } else {
        let b0 = b.drop_last();
        assert((a + b).drop_last() =~= a + b0);
        assert((a + b).last() == b.last());
        lemma_digits_base_ten(a, b0, c);
        let x = digits_value(a);
        let p = pow(10, b0.len());
        let y = digits_value(b0);
        assert(pow(10, b.len()) == 10 * p);
        assert((x * p + y) * 10 == x * (10 * p) + y * 10) by (nonlinear_arith);
    }
}

/// A decimal digit.
pub open spec fn is_digit(c: char) -> bool {
    '0' <= c && c <= '9'
}

/// The value of a string of decimal digits.
pub open spec fn digits_value(s: Seq<char>) -> int
    decreases s.len(),
{
    if s.len() == 0 {
        0
    } else {
        digits_value(s.drop_last()) * 10 + (s.last() as int - '0' as int)
    }
}

/// `s` without one leading `+`, if it has one: the digits of an unsigned number.
pub open spec fn unsigned_digits(s: Seq<char>) -> Seq<char> {
    if s.len() > 0 && s[0] == '+' {
        s.drop_first()
    } else {
        s
    }
}

/// Every character of `s` is a decimal digit.
pub open spec fn all_digits(s: Seq<char>) -> bool {
    forall|i: int| 0 <= i < s.len() ==> is_digit(#[trigger] s[i])
}

/// What an unsigned integer of at most `max` parses from: an optional `+`
/// followed by one or more digits, of a value at most `max`.
pub open spec fn parsed_unsigned(s: Seq<char>, max: int) -> Option<int> {
    if unsigned_digits(s).len() > 0 && all_digits(unsigned_digits(s)) && digits_value(
        unsigned_digits(s),
    ) <= max {
        Some(digits_value(unsigned_digits(s)))
    } else {
        None
    }
}

/// Calls `str::parse::<u64>`: std documents that it accepts an optional `+`
/// followed by digits only, and fails on anything else and on values above `u64::MAX`.
#[verifier::external_body]
fn parse_u64(s: &str) -> (res: Option<u64>)
    ensures
        res matches Some(n) ==> parsed_unsigned(s@, u64::MAX as int) == Some(n as int),
        res is None ==> parsed_unsigned(s@, u64::MAX as int) is None,
{
    s.parse::<u64>().ok()
}

/// Calls `str::parse::<usize>`: std documents that it accepts an optional `+`
/// followed by digits only, and fails on anything else and on values above `usize::MAX`.
#[verifier::external_body]
fn parse_usize(s: &str) -> (res: Option<usize>)
    ensures
        res matches Some(n) ==> parsed_unsigned(s@, usize::MAX as int) == Some(n as int),
        res is None ==> parsed_unsigned(s@, usize::MAX as int) is None,
{
    s.parse::<usize>().ok()
}

/// What a line typed at a single-choice prompt means.
#[derive(Debug, PartialEq, Eq)]
pub enum SelectionAnswer {
    /// The choice at this index (the player counts from 1).
    Chosen(usize),
    /// A number that names no choice: the prompt is put again.
    OutOfRange,
    /// Not a number.
    NotANumber,
}

/// What a line typed at a multiple-choice prompt means.
#[derive(Debug, PartialEq, Eq)]
pub enum ToggleAnswer {
    /// An empty line: the selection is done.
    Finish,
    /// Toggle the choice at this index (the player counts from 1).
    Toggle(usize),
    /// A number that names no choice.
    OutOfRange,
    /// Not a number.
    NotANumber,
}

/// What a line typed at a prompt for an optional number means.
#[derive(Debug, PartialEq, Eq)]
pub enum NumberAnswer {
    /// An empty line.
    Blank,
    /// This number.
    Number(u64),
    /// Not a number.
    NotANumber,
}

/// The index that the number `selection` (counted from 1) names among
/// `choice_count` choices, if it names one.
pub open spec fn choice_index(selection: int, choice_count: int) -> Option<int> {
    if 1 <= selection <= choice_count {
        Some(selection - 1)
    } else {
        None
    }
}

/// Among `choice_count` choices, each number from 1 to `choice_count` names
/// the choice one below it, and every other number names none.
pub proof fn lemma_choice_index_counts_from_one(selection: int, choice_count: int)
    ensures
        1 <= selection <= choice_count ==> choice_index(selection, choice_count) == Some(
            selection - 1,
        ),
        !(1 <= selection <= choice_count) ==> choice_index(selection, choice_count) is None,
{
}

/// The meaning of `input` at a prompt with `choice_count` choices.
pub fn selection_answer(input: &str, choice_count: usize) -> (res: SelectionAnswer)
    ensures
        parsed_unsigned(trimmed(input@), usize::MAX as int) matches Some(n) ==> (
        match choice_index(n, choice_count as int) {
            Some(i) => res == SelectionAnswer::Chosen(i as usize),
            None => res is OutOfRange,
        }),
        parsed_unsigned(trimmed(input@), usize::MAX as int) matches Some(n) ==> (1 <= n
            <= choice_count ==> res == SelectionAnswer::Chosen((n - 1) as usize)),
        parsed_unsigned(trimmed(input@), usize::MAX as int) matches Some(n) ==> (!(1 <= n
            <= choice_count) ==> res is OutOfRange),
        parsed_unsigned(trimmed(input@), usize::MAX as int) is None ==> res is NotANumber,
{
    let text = trim_input(input);
    match parse_usize(text) {
        Some(selection) => {
            if selection > 0 && selection <= choice_count {
                SelectionAnswer::Chosen(selection - 1)
            } else {
                SelectionAnswer::OutOfRange
            }
        },
        None => SelectionAnswer::NotANumber,
    }
}

/// The number that `input` gives, if it gives one, for a prompt that takes the
/// number as it is.
pub fn index_answer(input: &str) -> (res: Option<usize>)
    ensures
        res matches Some(n) ==> parsed_unsigned(trimmed(input@), usize::MAX as int) == Some(n as int),
        res is None ==> parsed_unsigned(trimmed(input@), usize::MAX as int) is None,
{
    let text = trim_input(input);
    parse_usize(text)
}

/// The meaning of `input` at a multiple-choice prompt with `choice_count` choices.
pub fn toggle_answer(input: &str, choice_count: usize) -> (res: ToggleAnswer)
    ensures
        trimmed(input@).len() == 0 ==> res is Finish,
        trimmed(input@).len() > 0 ==> (parsed_unsigned(trimmed(input@), usize::MAX as int) matches Some(
            n,
        ) ==> (match choice_index(n, choice_count as int) {
            Some(i) => res == ToggleAnswer::Toggle(i as usize),
            None => res is OutOfRange,
        })),
        trimmed(input@).len() > 0 ==> (parsed_unsigned(trimmed(input@), usize::MAX as int) is None
            ==> res is NotANumber),
        trimmed(input@).len() > 0 ==> (parsed_unsigned(trimmed(input@), usize::MAX as int) matches Some(
            n,
        ) ==> (1 <= n <= choice_count ==> res == ToggleAnswer::Toggle((n - 1) as usize))),
        trimmed(input@).len() > 0 ==> (parsed_unsigned(trimmed(input@), usize::MAX as int) matches Some(
            n,
        ) ==> (!(1 <= n <= choice_count) ==> res is OutOfRange)),
{
    let text = trim_input(input);
    if text.is_empty() {
        return ToggleAnswer::Finish;
    }
    match parse_usize(text) {
        Some(selection) => {
            if selection < 1 || selection > choice_count {
                ToggleAnswer::OutOfRange
            } else {
                ToggleAnswer::Toggle(selection - 1)
            }
        },
        None => ToggleAnswer::NotANumber,
    }
}

/// The meaning of `input` at a prompt for an optional number.
pub fn number_answer(input: &str) -> (res: NumberAnswer)
    ensures
        trimmed(input@).len() == 0 ==> res is Blank,
        trimmed(input@).len() > 0 ==> (parsed_unsigned(trimmed(input@), u64::MAX as int) matches Some(
            n,
        ) ==> res == NumberAnswer::Number(n as u64)),
        trimmed(input@).len() > 0 ==> (parsed_unsigned(trimmed(input@), u64::MAX as int) is None
            ==> res is NotANumber),
{
    let text = trim_input(input);
    if text.is_empty() {
        return NumberAnswer::Blank;
    }
    match parse_u64(text) {
        Some(n) => NumberAnswer::Number(n),
        None => NumberAnswer::NotANumber,
    }
}

/// Which of the choices of a multiple-choice prompt are toggled on.
pub struct MultiSelection {
    chosen: Vec<bool>,
}

impl View for MultiSelection {
    type V = Seq<bool>;

    closed spec fn view(&self) -> Seq<bool> {
        self.chosen@
    }
}

/// The indices whose flag is on, in increasing order.
pub open spec fn on_indices(flags: Seq<bool>) -> Seq<int>
    decreases flags.len(),
{
    if flags.len() == 0 {
        Seq::empty()
    } else if flags.last() {
        on_indices(flags.drop_last()).push(flags.len() - 1)
    } else {
        on_indices(flags.drop_last())
    }
}

impl MultiSelection {
    /// `choice_count` choices, none of them on.
    pub fn new(choice_count: usize) -> (res: Self)
        ensures
            res@ == Seq::new(choice_count as nat, |i: int| false),
    {
        let mut chosen: Vec<bool> = Vec::new();
        let mut i: usize = 0;
        while i < choice_count
            invariant
                0 <= i <= choice_count,
                chosen@ == Seq::new(i as nat, |j: int| false),
            decreases choice_count - i,
        {
            chosen.push(false);
            i = i + 1;
        }
        MultiSelection { chosen }
    }

    /// How many choices there are.
    pub fn len(&self) -> (res: usize)
        ensures
            res == self@.len(),
    {
        self.chosen.len()
    }

    /// Whether the choice at `index` is on.
    pub fn is_on(&self, index: usize) -> (res: bool)
        requires
            index < self@.len(),
        ensures
            res == self@[index as int],
    {
        self.chosen[index]
    }

    /// Turns the choice at `index` on if it was off, and off if it was on.
    pub fn toggle(&mut self, index: usize)
        requires
            index < old(self)@.len(),
        ensures
            final(self)@ == old(self)@.update(index as int, !old(self)@[index as int]),
    {
        let on = self.chosen[index];
        self.chosen.set(index, !on);
    }

    /// The indices of the choices that are on, in increasing order.
    pub fn chosen_indices(&self) -> (res: Vec<usize>)
        ensures
            res@.map_values(|i: usize| i as int) == on_indices(self@),
    {
        let mut indices: Vec<usize> = Vec::new();
        let mut i: usize = 0;
        while i < self.chosen.len()
            invariant
                0 <= i <= self.chosen@.len(),
                indices@.map_values(|k: usize| k as int) == on_indices(self.chosen@.take(i as int)),
            decreases self.chosen@.len() - i,
        {
            let ghost before = indices@;
            assert(self.chosen@.take(i + 1).drop_last() =~= self.chosen@.take(i as int));
            assert(self.chosen@.take(i + 1).last() == self.chosen@[i as int]);
            if self.chosen[i] {
                indices.push(i);
                assert(indices@.map_values(|k: usize| k as int) =~= before.map_values(
                    |k: usize| k as int,
                ).push(i as int));
            }
            i = i + 1;
        }
        assert(self.chosen@.take(i as int) =~= self.chosen@);
        indices
    }
}

/// Toggling a choice twice leaves the selection as it was.
pub proof fn lemma_toggle_twice(s: Seq<bool>, index: int)
    requires
        0 <= index < s.len(),
    ensures
        s.update(index, !s[index]).update(index, !s.update(index, !s[index])[index]) == s,
{
    assert(s.update(index, !s[index]).update(index, !s.update(index, !s[index])[index]) =~= s);
}

/// The chosen indices are in strictly increasing order, each names a choice
/// that is on, and every choice that is on is among them.
pub proof fn lemma_on_indices(flags: Seq<bool>)
    ensures
        forall|a: int, b: int|
            0 <= a < b < on_indices(flags).len() ==> on_indices(flags)[a] < on_indices(flags)[b],
        forall|a: int|
            0 <= a < on_indices(flags).len() ==> 0 <= #[trigger] on_indices(flags)[a] < flags.len()
                && flags[on_indices(flags)[a]],
        forall|i: int| 0 <= i < flags.len() && #[trigger] flags[i] ==> on_indices(flags).contains(i),
    decreases flags.len(),
{
    if flags.len() > 0 {
        let rest = flags.drop_last();
        lemma_on_indices(rest);
        assert forall|i: int| 0 <= i < flags.len() && #[trigger] flags[i] implies on_indices(
            flags,
        ).contains(i) by {
            if i < flags.len() - 1 {
                assert(rest[i] == flags[i]);
                let k = choose|k: int| 0 <= k < on_indices(rest).len() && on_indices(rest)[k] == i;
                if flags.last() {
                    assert(on_indices(flags)[k] == i);
                }
            } else {
                assert(on_indices(flags).last() == i);
            }
        }
        assert forall|a: int|
            0 <= a < on_indices(flags).len() implies 0 <= #[trigger] on_indices(flags)[a] < flags.len()
            && flags[on_indices(flags)[a]] by {
            if a < on_indices(rest).len() {
                assert(rest[on_indices(rest)[a]] == flags[on_indices(rest)[a]]);
            }
        }
    }
}

} // verus!
