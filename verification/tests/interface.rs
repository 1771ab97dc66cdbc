use fsrng::interface::{
    number_answer, selection_answer, toggle_answer, MultiSelection, NumberAnswer, SelectionAnswer,
    ToggleAnswer,
};

#[test]
fn selection_answers_count_from_one() {
    assert_eq!(selection_answer("1", 3), SelectionAnswer::Chosen(0));
    assert_eq!(selection_answer("  3 \n", 3), SelectionAnswer::Chosen(2));
    assert_eq!(selection_answer("+2\n", 3), SelectionAnswer::Chosen(1));
    assert_eq!(selection_answer("0\n", 3), SelectionAnswer::OutOfRange);
    assert_eq!(selection_answer("4\n", 3), SelectionAnswer::OutOfRange);
    assert_eq!(selection_answer("two\n", 3), SelectionAnswer::NotANumber);
    assert_eq!(selection_answer("-1\n", 3), SelectionAnswer::NotANumber);
    assert_eq!(selection_answer("\n", 3), SelectionAnswer::NotANumber);
    assert_eq!(selection_answer("1\n", 0), SelectionAnswer::OutOfRange);
}

#[test]
fn toggle_answers() {
    assert_eq!(toggle_answer("\n", 2), ToggleAnswer::Finish);
    assert_eq!(toggle_answer("   \n", 2), ToggleAnswer::Finish);
    assert_eq!(toggle_answer("2\n", 2), ToggleAnswer::Toggle(1));
    assert_eq!(toggle_answer("3\n", 2), ToggleAnswer::OutOfRange);
    assert_eq!(toggle_answer("0\n", 2), ToggleAnswer::OutOfRange);
    assert_eq!(toggle_answer("x\n", 2), ToggleAnswer::NotANumber);
}

#[test]
fn number_answers() {
    assert_eq!(number_answer("\n"), NumberAnswer::Blank);
    assert_eq!(number_answer(" 42 \n"), NumberAnswer::Number(42));
    assert_eq!(number_answer("18446744073709551615\n"), NumberAnswer::Number(u64::MAX));
    assert_eq!(number_answer("18446744073709551616\n"), NumberAnswer::NotANumber);
    assert_eq!(number_answer("4 2\n"), NumberAnswer::NotANumber);
    assert_eq!(number_answer("abc"), NumberAnswer::NotANumber);
}

#[test]
fn toggling_twice_restores_the_selection() {
    let mut s = MultiSelection::new(4);
    assert_eq!(s.len(), 4);
    assert!(s.chosen_indices().is_empty());
    s.toggle(2);
    s.toggle(0);
    assert_eq!(s.chosen_indices(), vec![0, 2]);
    s.toggle(2);
    s.toggle(2);
    assert_eq!(s.chosen_indices(), vec![0, 2]);
    s.toggle(0);
    assert_eq!(s.chosen_indices(), vec![2]);
}

#[test]
fn empty_multi_selection() {
    let s = MultiSelection::new(0);
    assert_eq!(s.len(), 0);
    assert!(s.chosen_indices().is_empty());
}

#[test]
fn unicode_white_space_is_trimmed() {
    assert_eq!(number_answer("\u{3000}7\u{a0}\t"), NumberAnswer::Number(7));
    assert_eq!(selection_answer("\u{2009}1\u{2028}", 2), SelectionAnswer::Chosen(0));
    assert_eq!(number_answer("\u{200b}7"), NumberAnswer::NotANumber);
}
