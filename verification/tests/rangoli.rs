use nannou_sorting::rangoli::{AlphabetSet, RangoliTextPattern};

#[test]
fn test_iter_print_loop() {
    let alphabet_set = AlphabetSet::new('a', 'z');
    let mut rtp_03 = RangoliTextPattern::new(3, &alphabet_set);
    println!();
    for (idx, line) in rtp_03.iter().enumerate() {
        println!("{idx}: {line}");
    }
}
