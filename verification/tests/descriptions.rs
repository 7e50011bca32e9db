use nannou_sorting::bubble_sort::{AlgoNextAction, AlgoPrevAction, BubbleSort};
use nannou_sorting::rangoli::{AlphabetSet, RangoliTextPattern};
use nannou_sorting::text::{decimal_text, signed_decimal_text};

#[test]
fn decimal_text_of_small_and_large_numbers() {
    assert_eq!(decimal_text(0), "0");
    assert_eq!(decimal_text(7), "7");
    assert_eq!(decimal_text(10), "10");
    assert_eq!(decimal_text(909), "909");
    assert_eq!(decimal_text(1_000_000), "1000000");
    assert_eq!(decimal_text(u32::MAX), "4294967295");
}

#[test]
fn decimal_text_agrees_with_the_standard_notation() {
    for n in (0..100_000u32).step_by(37) {
        assert_eq!(decimal_text(n), n.to_string());
    }
}

#[test]
fn signed_decimal_text_carries_the_sign() {
    assert_eq!(signed_decimal_text(0), "0");
    assert_eq!(signed_decimal_text(17), "17");
    assert_eq!(signed_decimal_text(-1), "-1");
    assert_eq!(signed_decimal_text(-120), "-120");
    assert_eq!(signed_decimal_text(i32::MAX), "2147483647");
    assert_eq!(signed_decimal_text(i32::MIN), "-2147483648");
}

#[test]
fn forward_actions_describe_themselves() {
    let swap = AlgoNextAction::Swap { outer_idx: 0, inner_idx: 1, i_val: 4u32, ipp_val: 2u32 };
    assert_eq!(swap.describe(), "outer_idx: 0, inner_idx: 1, i_val: 4, ipp_val: 2");
    let no_swap: AlgoNextAction<u32> = AlgoNextAction::NoSwap { outer_idx: 12, inner_idx: 305 };
    assert_eq!(no_swap.describe(), "outer_idx: 12, inner_idx: 305");
    let tidy: AlgoNextAction<u32> = AlgoNextAction::BookKeeping();
    assert_eq!(tidy.describe(), "Only book-keeping operations were performed.");
}

#[test]
fn backward_actions_describe_themselves() {
    let undo = AlgoPrevAction::UndoSwap { outer_idx: 3, inner_idx: 0, i_val: "pear", ipp_val: "fig" };
    assert_eq!(undo.describe(), "outer_idx: 3, inner_idx: 0, ith_val: pear, inext_val: fig");
    let no_swap: AlgoPrevAction<char> = AlgoPrevAction::NoSwap { outer_idx: 1, inner_idx: 0 };
    assert_eq!(no_swap.describe(), "outer_idx: 1, inner_idx: 0");
    let nothing: AlgoPrevAction<char> = AlgoPrevAction::EmptySwapEvents();
    assert_eq!(nothing.describe(), "No swap events recorded.");
}

#[test]
fn actions_of_a_walk_describe_what_was_done() {
    let mut v = vec![2.5f64, 1.25];
    let mut session = BubbleSort::new(&mut v).unwrap();
    assert_eq!(
        session.algo_next().describe(),
        "outer_idx: 0, inner_idx: 0, i_val: 2.5, ipp_val: 1.25"
    );
    assert_eq!(
        session.algo_prev().describe(),
        "outer_idx: 0, inner_idx: 0, ith_val: 2.5, inext_val: 1.25"
    );
}

#[test]
fn pattern_describes_itself() {
    let alphabet = AlphabetSet::new('a', 'z');
    let pattern = RangoliTextPattern::new(2, &alphabet);
    assert_eq!(
        pattern.describe(),
        "\nRangoli Text Pattern:\n[\n    \"b\",\n    \"b-a-b\",\n    \"b\",\n]\nMax Width: 5\n"
    );
    let (lines, width) = pattern.get_rangoli_text();
    assert_eq!(
        pattern.describe(),
        format!("\nRangoli Text Pattern:\n{:#?}\nMax Width: {}\n", lines, width)
    );
}
