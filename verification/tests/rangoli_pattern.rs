use nannou_sorting::rangoli::{
    check_parameters, letter_cells, middle_of, AlphabetSet, ParameterError, RangoliTextPattern,
    LOWER_BOUND, UPPER_BOUND,
};

#[test]
fn alphabet_holds_every_letter_in_order() {
    let alphabet = AlphabetSet::new('a', 'z');
    let letters: String = alphabet.get_alphabet().iter().collect();
    assert_eq!(letters, "abcdefghijklmnopqrstuvwxyz");
    assert_eq!(alphabet.get_alphabet().len(), 26);
    assert_eq!(alphabet.get_delimiter(), '-');
    assert_eq!(alphabet.get_false_token(), ' ');
}

#[test]
fn alphabet_of_one_letter() {
    let alphabet = AlphabetSet::new('q', 'q');
    assert_eq!(*alphabet.get_alphabet(), vec!['q']);
}

#[test]
fn alphabet_with_bounds_the_wrong_way_round_is_empty() {
    let alphabet = AlphabetSet::new('z', 'a');
    assert!(alphabet.get_alphabet().is_empty());
}

#[test]
fn alphabet_skips_the_surrogate_gap() {
    let alphabet = AlphabetSet::new('\u{D7FE}', '\u{E001}');
    assert_eq!(
        *alphabet.get_alphabet(),
        vec!['\u{D7FE}', '\u{D7FF}', '\u{E000}', '\u{E001}']
    );
}

#[test]
fn alphabet_matches_the_character_range_of_the_language() {
    let alphabet = AlphabetSet::new('A', 'k');
    let expected: Vec<char> = ('A'..='k').collect();
    assert_eq!(*alphabet.get_alphabet(), expected);
}

#[test]
fn line_runs_down_and_up_again() {
    let alphabet = AlphabetSet::new('a', 'z');
    assert_eq!(RangoliTextPattern::generate_text_line(2, 1, &alphabet), "c");
    assert_eq!(RangoliTextPattern::generate_text_line(2, 0, &alphabet), "c-b-c");
    assert_eq!(RangoliTextPattern::generate_text_line(2, -1, &alphabet), "c-b-a-b-c");
    assert_eq!(RangoliTextPattern::generate_text_line(4, 1, &alphabet), "e-d-c-d-e");
}

#[test]
fn line_is_empty_when_there_is_nothing_between_the_places() {
    let alphabet = AlphabetSet::new('a', 'z');
    assert_eq!(RangoliTextPattern::generate_text_line(2, 2, &alphabet), "");
    assert_eq!(RangoliTextPattern::generate_text_line(0, 5, &alphabet), "");
}

#[test]
fn line_fills_in_where_the_alphabet_ends() {
    let alphabet = AlphabetSet::new('a', 'c');
    // Places 3 and 4 lie beyond the three letters, place -1 before them.
    assert_eq!(RangoliTextPattern::generate_text_line(4, 1, &alphabet), " - -c- - ");
    assert_eq!(RangoliTextPattern::generate_text_line(0, -2, &alphabet), "a- -a");
}

#[test]
fn pattern_of_five_letters() {
    let alphabet = AlphabetSet::new('a', 'z');
    let pattern = RangoliTextPattern::new(5, &alphabet);
    let (lines, width) = pattern.get_rangoli_text();
    assert_eq!(
        *lines,
        vec![
            "e",
            "e-d-e",
            "e-d-c-d-e",
            "e-d-c-b-c-d-e",
            "e-d-c-b-a-b-c-d-e",
            "e-d-c-b-c-d-e",
            "e-d-c-d-e",
            "e-d-e",
            "e",
        ]
    );
    assert_eq!(width, 17);
}

#[test]
fn width_is_that_of_the_widest_line() {
    let alphabet = AlphabetSet::new('a', 'z');
    for n in 1..=26 {
        let pattern = RangoliTextPattern::new(n, &alphabet);
        let (lines, width) = pattern.get_rangoli_text();
        assert_eq!(lines.len(), (2 * n - 1) as usize);
        assert_eq!(width, 4 * n - 3);
        assert_eq!(width as usize, lines.iter().map(|l| l.len()).max().unwrap());
        assert_eq!(width as usize, lines[(n - 1) as usize].len());
        for k in 0..lines.len() {
            assert_eq!(lines[k], lines[lines.len() - 1 - k]);
        }
    }
}

#[test]
fn width_counts_bytes() {
    // Each of these letters takes two bytes, the joint takes one.
    let alphabet = AlphabetSet::new('\u{3b1}', '\u{3c9}');
    let pattern = RangoliTextPattern::new(2, &alphabet);
    let (lines, width) = pattern.get_rangoli_text();
    assert_eq!(*lines, vec!["\u{3b2}", "\u{3b2}-\u{3b1}-\u{3b2}", "\u{3b2}"]);
    assert_eq!(width, 8);
}

#[test]
fn pattern_is_a_diamond() {
    let alphabet = AlphabetSet::new('a', 'z');
    let pattern = RangoliTextPattern::new(3, &alphabet);
    let (lines, width) = pattern.get_rangoli_text();
    assert_eq!(*lines, vec!["c", "c-b-c", "c-b-a-b-c", "c-b-c", "c"]);
    assert_eq!(width, 9);
    assert_eq!(lines.get(5), None);
}

#[test]
fn pattern_of_one_letter_is_one_line() {
    let alphabet = AlphabetSet::new('a', 'z');
    let mut single = RangoliTextPattern::new(1, &alphabet);
    let (lines, width) = single.get_rangoli_text();
    assert_eq!(*lines, vec!["a"]);
    assert_eq!(width, 1);
    assert_eq!(single.next().unwrap(), "a");
    assert_eq!(single.next(), None);
}

#[test]
fn next_takes_the_lines_from_the_bottom() {
    let alphabet = AlphabetSet::new('a', 'z');
    let mut pattern = RangoliTextPattern::new(3, &alphabet);
    assert_eq!(pattern.next().unwrap(), "c");
    assert_eq!(pattern.next().unwrap(), "c-b-c");
    assert_eq!(pattern.next().unwrap(), "c-b-a-b-c");
    {
        let (lines, _) = pattern.get_rangoli_text();
        assert_eq!(*lines, vec!["c", "c-b-c"]);
    }
    assert_eq!(pattern.next().unwrap(), "c-b-c");
    assert_eq!(pattern.next().unwrap(), "c");
    assert_eq!(pattern.next(), None);
    assert_eq!(pattern.next(), None);
}

#[test]
fn next_leaves_the_width_alone() {
    let alphabet = AlphabetSet::new('a', 'z');
    let mut pattern = RangoliTextPattern::new(4, &alphabet);
    for _ in 0..5 {
        pattern.next();
    }
    let (lines, width) = pattern.get_rangoli_text();
    assert_eq!(lines.len(), 2);
    assert_eq!(width, 13);
}

#[test]
fn iter_walks_from_the_top() {
    let alphabet = AlphabetSet::new('a', 'z');
    let pattern = RangoliTextPattern::new(3, &alphabet);
    let seen: Vec<&String> = pattern.iter().collect();
    assert_eq!(seen, vec!["c", "c-b-c", "c-b-a-b-c", "c-b-c", "c"]);
}

#[test]
fn parameters_within_bounds_are_accepted() {
    assert_eq!(LOWER_BOUND, 1);
    assert_eq!(UPPER_BOUND, 26);
    assert_eq!(check_parameters(1, 'a', 'z'), Ok(()));
    assert_eq!(check_parameters(26, 'A', 'Z'), Ok(()));
}

#[test]
fn number_out_of_bounds_is_refused() {
    assert_eq!(check_parameters(0, 'a', 'z'), Err(ParameterError::NumberOutOfBounds));
    assert_eq!(check_parameters(27, 'a', 'z'), Err(ParameterError::NumberOutOfBounds));
    assert_eq!(check_parameters(-3, 'a', 'z'), Err(ParameterError::NumberOutOfBounds));
}

#[test]
fn alphabet_of_the_wrong_length_is_refused() {
    assert_eq!(check_parameters(5, 'a', 'y'), Err(ParameterError::AlphabetLength));
    assert_eq!(check_parameters(5, 'z', 'a'), Err(ParameterError::AlphabetLength));
    assert_eq!(check_parameters(5, 'a', 'a'), Err(ParameterError::AlphabetLength));
}

#[test]
fn number_is_looked_at_before_the_alphabet() {
    assert_eq!(check_parameters(0, 'a', 'b'), Err(ParameterError::NumberOutOfBounds));
}

#[test]
fn letter_cells_leave_out_the_joints() {
    assert_eq!(letter_cells("c-b-a-b-c"), vec![('c', 0), ('b', 2), ('a', 4), ('b', 6), ('c', 8)]);
    assert_eq!(letter_cells("a"), vec![('a', 0)]);
    assert_eq!(letter_cells(""), vec![]);
    assert_eq!(letter_cells("ab"), vec![('a', 0)]);
}

#[test]
fn letter_cells_count_characters_not_bytes() {
    assert_eq!(letter_cells("\u{3b2}-\u{3b1}-\u{3b2}"), vec![('\u{3b2}', 0), ('\u{3b1}', 2), ('\u{3b2}', 4)]);
    assert_eq!(middle_of("\u{3b2}-\u{3b1}-\u{3b2}"), 2);
}

#[test]
fn middle_is_half_the_length() {
    assert_eq!(middle_of(""), 0);
    assert_eq!(middle_of("a"), 0);
    assert_eq!(middle_of("c-b-c"), 2);
    assert_eq!(middle_of("c-b-a-b-c"), 4);
}
