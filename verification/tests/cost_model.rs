use code_racer::route_connector::{
    is_letter, is_number, is_phonetic, is_shape, RouteConnector, Scheme, DEFAULT_FALLBACK,
};
use code_racer::timing::{round_to_cost, TimingTable};

fn keys(s: &str) -> Vec<char> {
    s.chars().collect()
}

fn flat(scheme: Scheme) -> RouteConnector {
    RouteConnector::with_fallback(TimingTable::new(), scheme, 1_000_000)
}

#[test]
fn rounding_is_half_up() {
    assert_eq!(round_to_cost(0), 0);
    assert_eq!(round_to_cost(4_999), 0);
    assert_eq!(round_to_cost(5_000), 1);
    assert_eq!(round_to_cost(14_999), 1);
    assert_eq!(round_to_cost(15_000), 2);
    assert_eq!(round_to_cost(1_500_000), 150);
}

#[test]
fn table_keeps_the_first_cost_of_a_pair() {
    let mut table = TimingTable::new();
    assert!(table.insert('a', 'b', 7));
    assert!(!table.insert('a', 'b', 9));
    assert!(table.insert('b', 'a', 11));
    assert_eq!(table.get('a', 'b'), Some(7));
    assert_eq!(table.get('b', 'a'), Some(11));
    assert_eq!(table.get('a', 'a'), None);
    let copy = table.clone();
    assert_eq!(copy.get('a', 'b'), Some(7));
}

#[test]
fn sequence_is_summed_and_rounded_once() {
    let mut table = TimingTable::new();
    table.insert('a', 'b', 14_000);
    table.insert('b', 'c', 14_000);
    let mut connector = RouteConnector::new(table, Scheme::Concatenation);
    assert_eq!(connector.get_time(&keys("ab")), 1);
    assert_eq!(connector.get_time(&keys("bc")), 1);
    assert_eq!(connector.get_time(&keys("abc")), 3);
    assert_eq!(connector.unknown_keys_count(), 0);
}

#[test]
fn short_sequences_cost_nothing() {
    let mut connector = RouteConnector::new(TimingTable::new(), Scheme::Separator);
    assert_eq!(connector.get_time(&keys("")), 0);
    assert_eq!(connector.get_time(&keys("a")), 0);
    assert_eq!(connector.unknown_keys_count(), 0);
}

#[test]
fn unknown_pairs_cost_the_fallback_and_are_recorded_once() {
    assert_eq!(DEFAULT_FALLBACK, 1_500_000);
    let mut table = TimingTable::new();
    table.insert('a', 'b', 300_000);
    let mut connector = RouteConnector::new(table, Scheme::Concatenation);
    assert_eq!(connector.get_time(&keys("abqq")), 30 + 150 + 150);
    assert_eq!(connector.get_time(&keys("qq")), 150);
    assert_eq!(connector.unknown_keys_count(), 2);
    assert_eq!(connector.report_unknown_keys(), vec![keys("bq"), keys("qq")]);
    let copy = connector.clone();
    assert_eq!(copy.unknown_keys_count(), 2);
    assert_eq!(copy.report_unknown_keys(), vec![keys("bq"), keys("qq")]);
}

#[test]
fn fallback_cost_can_be_chosen() {
    let mut connector =
        RouteConnector::with_fallback(TimingTable::new(), Scheme::Concatenation, 1_400_000);
    assert_eq!(connector.get_time(&keys("xy")), 140);
    assert_eq!(connector.get_time(&keys("xyz")), 280);
}

#[test]
fn schemes_have_the_codes_zero_to_two() {
    assert_eq!(Scheme::from_code(0), Some(Scheme::Separator));
    assert_eq!(Scheme::from_code(1), Some(Scheme::Concatenation));
    assert_eq!(Scheme::from_code(2), Some(Scheme::Overflow));
    assert_eq!(Scheme::from_code(3), None);
    assert_eq!(Scheme::from_code(usize::MAX), None);
    assert_eq!(Scheme::Separator.code(), 0);
    assert_eq!(Scheme::Concatenation.code(), 1);
    assert_eq!(Scheme::Overflow.code(), 2);
    assert_eq!(flat(Scheme::Overflow).scheme(), Scheme::Overflow);
}

#[test]
fn character_classes_are_fixed_sets() {
    for c in "abcxyzABCXYZ".chars() {
        assert!(is_letter(c));
        assert!(!is_number(c));
    }
    for c in "0123456789".chars() {
        assert!(is_number(c));
        assert!(!is_letter(c));
    }
    for c in "aiouvAIOUV".chars() {
        assert!(is_shape(c));
        assert!(!is_phonetic(c));
    }
    for c in "bcdefghjklmnpqrstwxyzBCDEFGHJKLMNPQRSTWXYZ".chars() {
        assert!(is_phonetic(c));
        assert!(!is_shape(c));
    }
    for c in " ,.;=你".chars() {
        assert!(!is_letter(c) && !is_number(c) && !is_shape(c) && !is_phonetic(c));
    }
}

#[test]
fn separator_puts_a_space_between_letter_and_digit() {
    let mut table = TimingTable::new();
    table.insert('z', ' ', 300_000);
    table.insert(' ', '5', 400_000);
    let mut connector = RouteConnector::new(table, Scheme::Separator);
    let (code, cost) = connector.connect(&keys("xyz"), &keys("56"), 100, 20);
    assert_eq!(code, keys("xyz 56"));
    assert_eq!(cost, 100 + 20 + 70);
    assert_eq!(connector.unknown_keys_count(), 0);
}

#[test]
fn separator_rounds_the_two_pairs_of_a_space_together() {
    let mut table = TimingTable::new();
    table.insert('z', ' ', 14_000);
    table.insert(' ', 'a', 14_000);
    let mut connector = RouteConnector::new(table, Scheme::Separator);
    let (code, cost) = connector.connect(&keys("z"), &keys("a"), 0, 0);
    assert_eq!(code, keys("z a"));
    assert_eq!(cost, 3);
}

#[test]
fn separator_joins_directly_where_no_letter_meets_letter_or_digit() {
    let mut connector = flat(Scheme::Separator);
    assert_eq!(connector.connect(&keys("z"), &keys(","), 1, 2), (keys("z,"), 103));
    assert_eq!(connector.connect(&keys("5"), &keys("a"), 1, 2), (keys("5a"), 103));
    assert_eq!(connector.connect(&keys(","), &keys("a"), 1, 2), (keys(",a"), 103));
    assert_eq!(connector.connect(&keys("a"), &keys("b"), 1, 2), (keys("a b"), 203));
}

#[test]
fn empty_prefix_gives_the_suffix_back() {
    let mut separator = flat(Scheme::Separator);
    assert_eq!(separator.connect(&keys(""), &keys("ab"), 0, 9), (keys("ab"), 9));
    let mut concatenation = flat(Scheme::Concatenation);
    assert_eq!(concatenation.connect(&keys(""), &keys("ab"), 0, 9), (keys("ab"), 9));
    assert_eq!(separator.unknown_keys_count(), 0);
    assert_eq!(concatenation.unknown_keys_count(), 0);
}

#[test]
fn concatenation_never_inserts() {
    let mut table = TimingTable::new();
    table.insert('b', 'c', 250_000);
    let mut connector = RouteConnector::new(table, Scheme::Concatenation);
    assert_eq!(connector.connect(&keys("ab"), &keys("cd"), 10, 20), (keys("abcd"), 55));
    assert_eq!(connector.connect(&keys("a"), &keys("5"), 10, 20), (keys("a5"), 180));
    assert_eq!(connector.report_unknown_keys(), vec![keys("a5")]);
}

#[test]
fn overflow_completes_short_phonetic_codes() {
    let mut connector = flat(Scheme::Overflow);
    assert_eq!(connector.connect(&keys(""), &keys("b"), 0, 7), (keys("b "), 107));
    assert_eq!(connector.connect(&keys(""), &keys("abc"), 0, 7), (keys("abc "), 107));
    assert_eq!(connector.connect(&keys(""), &keys("bcdf"), 0, 7), (keys("bcdf"), 7));
    assert_eq!(connector.connect(&keys(""), &keys("a"), 0, 7), (keys("a"), 7));
    assert_eq!(connector.connect(&keys(""), &keys(","), 0, 7), (keys(","), 7));
}

#[test]
fn overflow_lets_punctuation_take_the_space_away() {
    let mut connector = flat(Scheme::Overflow);
    assert_eq!(connector.connect(&keys("b "), &keys(","), 107, 0), (keys("b,"), 107));
    assert_eq!(connector.connect(&keys("a "), &keys(","), 107, 0), (keys("a,"), 107));
    assert_eq!(connector.connect(&keys("b "), &keys(","), 50, 0), (keys("b,"), 100));
    assert_eq!(connector.connect(&keys(" "), &keys(","), 5, 1), (keys(" ,"), 106));
    assert_eq!(connector.connect(&keys("b "), &keys(" "), 5, 1), (keys("b  "), 106));
    assert_eq!(connector.connect(&keys("b "), &keys("5"), 5, 1), (keys("b 5"), 106));
}

#[test]
fn overflow_spaces_a_letter_from_shape_or_digit() {
    let mut connector = flat(Scheme::Overflow);
    assert_eq!(connector.connect(&keys("x"), &keys("a"), 10, 5), (keys("x a"), 215));
    assert_eq!(connector.connect(&keys("x"), &keys("5"), 0, 0), (keys("x 5"), 200));
    assert_eq!(connector.connect(&keys("x"), &keys("b"), 0, 0), (keys("xb "), 200));
    assert_eq!(connector.connect(&keys("b "), &keys("c"), 1, 2), (keys("b c "), 203));
    assert_eq!(connector.connect(&keys(","), &keys("a"), 1, 2), (keys(",a"), 103));
}
