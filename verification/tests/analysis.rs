use code_racer::code_analyzer::{analyze, marks_at, windows, Analysis, PairMark, TripleMark};
use code_racer::report_saver::report_name;

fn keys(s: &str) -> Vec<char> {
    s.chars().collect()
}

fn layout() -> Vec<Vec<char>> {
    vec![
        keys("1234567890"),
        keys("qwertyuiop"),
        keys("asdfghjkl;"),
        keys("zxcvbnm,./"),
        keys(""),
        keys("1qaz"),
        keys("2wsx"),
        keys("3edc"),
        keys("45rtfgvb"),
        keys("67yuhjnm"),
        keys("8ik,"),
        keys("9ol."),
        keys("0p;/"),
        keys(" "),
    ]
}

fn counts(route: &str) -> Analysis {
    analyze(&layout(), &keys(route)).expect("the layout has its lines")
}

#[test]
fn layout_needs_its_fourteen_lines() {
    let mut short = layout();
    short.pop();
    assert_eq!(analyze(&short, &keys("abc")), None);
    let mut long = layout();
    long.push(keys("x"));
    assert_eq!(analyze(&long, &keys("abc")), None);
}

#[test]
fn empty_route_counts_nothing() {
    let none = counts("");
    assert_eq!(none.lines, vec![0; 14]);
    assert_eq!((none.left, none.right), (0, 0));
    assert_eq!((none.doubles, none.triples, none.quadruples, none.longer_runs), (0, 0, 0, 0));
    assert_eq!((none.small_leaps, none.medium_leaps, none.large_leaps, none.turns), (0, 0, 0, 0));
}

#[test]
fn keys_are_counted_on_rows_and_fingers() {
    let got = counts("aqq zz");
    assert_eq!(got.lines, vec![0, 2, 1, 2, 0, 5, 0, 0, 0, 0, 0, 0, 0, 1]);
    assert_eq!((got.left, got.right), (5, 0));
    assert_eq!(got.doubles, 2);
    assert_eq!(got.small_leaps, 1);
    assert_eq!((got.medium_leaps, got.large_leaps, got.turns, got.triples), (0, 0, 0, 0));
    let both = counts("fjfj;");
    assert_eq!((both.left, both.right), (2, 3));
}

#[test]
fn leaps_are_told_by_the_rows_between() {
    assert_eq!(counts("qz").medium_leaps, 1);
    assert_eq!(counts("zq").medium_leaps, 1);
    assert_eq!(counts("1z").large_leaps, 1);
    assert_eq!(counts("1q").small_leaps, 1);
    assert_eq!(counts("1a").medium_leaps, 1);
    let other_fingers = counts("qs");
    assert_eq!(
        (other_fingers.small_leaps, other_fingers.medium_leaps, other_fingers.large_leaps),
        (0, 0, 0)
    );
}

#[test]
fn hands_that_change_and_change_back_are_turns() {
    assert_eq!(counts("aja").turns, 1);
    assert_eq!(counts("jaj").turns, 1);
    assert_eq!(counts("ajaj").turns, 2);
    assert_eq!(counts("aaj").turns, 0);
    assert_eq!(counts("a a").turns, 0);
}

#[test]
fn runs_are_counted_by_their_length() {
    let six = counts("xxxxxx");
    assert_eq!((six.doubles, six.triples, six.quadruples, six.longer_runs), (1, 1, 1, 2));
    let mixed = counts("aabbbccccddddd");
    assert_eq!((mixed.doubles, mixed.triples, mixed.quadruples, mixed.longer_runs), (4, 3, 2, 1));
}

#[test]
fn marks_speak_of_one_key() {
    let route = keys("qqqz");
    let first = marks_at(&layout(), &route, 0);
    assert_eq!((first.pair, first.triple), (PairMark::Plain, TripleMark::Plain));
    assert!(first.lines[1] && first.lines[5] && !first.lines[0]);
    let third = marks_at(&layout(), &route, 2);
    assert_eq!((third.pair, third.triple), (PairMark::Double, TripleMark::Triple));
    assert!(!third.quadruple && !third.quintuple);
    let last = marks_at(&layout(), &route, 3);
    assert_eq!((last.pair, last.triple), (PairMark::MediumLeap, TripleMark::Plain));
}

#[test]
fn long_routes_are_counted_key_by_key() {
    let route: String = "asdfjkl;".chars().cycle().take(40_000).collect();
    let got = counts(&route);
    assert_eq!(got.lines[2], 40_000);
    assert_eq!((got.left, got.right), (20_000, 20_000));
    assert_eq!(got.lines[5], 5_000);
    assert_eq!(got.doubles, 0);
    assert_eq!(got.turns, 0);
}

#[test]
fn runs_of_keys_fit_a_route_so_often() {
    assert_eq!(windows(10, 1), Some(10));
    assert_eq!(windows(10, 3), Some(8));
    assert_eq!(windows(2, 3), Some(0));
    assert_eq!(windows(0, 1), Some(0));
    assert_eq!(windows(0, 2), None);
    assert_eq!(windows(5, 0), None);
    assert_eq!(windows(usize::MAX, 1), Some(usize::MAX));
}

#[test]
fn report_names_carry_the_attempt() {
    assert_eq!(report_name(&keys("text"), &keys("report"), 1), keys("text_report.txt"));
    assert_eq!(report_name(&keys("text"), &keys("report"), 0), keys("text_report.txt"));
    assert_eq!(report_name(&keys("text"), &keys("report"), 2), keys("text_report_2.txt"));
    assert_eq!(report_name(&keys("text"), &keys("report"), 10), keys("text_report_10.txt"));
    assert_eq!(report_name(&keys("文"), &keys("报告"), 1234567890), keys("文_报告_1234567890.txt"));
    assert_eq!(report_name(&keys(""), &keys(""), 2), keys("__2.txt"));
}
