use code_racer::dict_loader::load_dict;
use code_racer::dictionary::{Candidate, CompiledDictionary};
use code_racer::entry::Entry;
use code_racer::route_buffer::{RouteBuffer, RouteError};
use code_racer::route_connector::{RouteConnector, Scheme};
use code_racer::text_encoder::{encode, stands_at, within_budget};
use code_racer::timing::TimingTable;

fn keys(s: &str) -> Vec<char> {
    s.chars().collect()
}

fn entry(word: &str, code: &str, priority: usize) -> Entry {
    Entry { word: keys(word), code: keys(code), priority }
}

fn flat(scheme: Scheme) -> RouteConnector {
    RouteConnector::with_fallback(TimingTable::new(), scheme, 1_000_000)
}

fn buffer(size: usize, scheme: Scheme) -> RouteBuffer {
    RouteBuffer::new(size, flat(scheme)).expect("the window has slots")
}

fn compiled(entries: Vec<Entry>, scheme: Scheme) -> CompiledDictionary {
    let mut connector = flat(scheme);
    load_dict(&entries, &vec![], &mut connector).expect("entries compile").0
}

fn by_hand(candidates: Vec<(&str, &str, u128)>) -> CompiledDictionary {
    let mut dict = CompiledDictionary::new();
    for (word, code, cost) in candidates {
        dict.insert(Candidate { word: keys(word), code: keys(code), cost });
    }
    dict
}

fn run(text: &str, dict: &CompiledDictionary, size: usize, scheme: Scheme) -> Result<(String, u128), RouteError> {
    let mut b = buffer(size, scheme);
    let text = keys(text);
    assert!(within_budget(text.len(), dict, &b));
    encode(&text, dict, &mut b).map(|(route, cost)| (route.iter().collect(), cost))
}

#[test]
fn words_stand_where_their_characters_do() {
    let text = keys("你好吗");
    assert!(stands_at(&text, 0, &keys("你好")));
    assert!(stands_at(&text, 1, &keys("好吗")));
    assert!(stands_at(&text, 3, &keys("")));
    assert!(!stands_at(&text, 1, &keys("你好")));
    assert!(!stands_at(&text, 2, &keys("吗吗")));
    assert!(!stands_at(&text, 3, &keys("吗")));
    assert!(!stands_at(&text, 4, &keys("")));
    assert!(!stands_at(&text, usize::MAX, &keys("你")));
}

#[test]
fn empty_text_has_the_empty_route() {
    assert_eq!(run("", &CompiledDictionary::new(), 16, Scheme::Concatenation), Ok((String::new(), 0)));
}

#[test]
fn text_without_dictionary_is_typed_as_it_is() {
    let dict = CompiledDictionary::new();
    assert_eq!(run("你好吗", &dict, 16, Scheme::Concatenation), Ok(("你好吗".to_string(), 200)));
    assert_eq!(run("abc5,", &dict, 16, Scheme::Concatenation), Ok(("abc5,".to_string(), 400)));
    assert_eq!(run("你好吗", &dict, 2, Scheme::Separator), Ok(("你好吗".to_string(), 200)));
    assert_eq!(run("你好吗", &dict, 2, Scheme::Overflow), Ok(("你好吗".to_string(), 200)));
    assert_eq!(run("a,b;5", &dict, 16, Scheme::Separator), Ok(("a,b;5".to_string(), 400)));
    assert_eq!(run("b,a.", &dict, 16, Scheme::Overflow), Ok(("b,a.".to_string(), 300)));
}

#[test]
fn uncovered_pairs_are_looked_up_one_by_one() {
    let mut table = TimingTable::new();
    table.insert('你', '好', 14_000);
    table.insert('好', '吗', 14_000);
    let connector = RouteConnector::new(table, Scheme::Concatenation);
    let mut b = RouteBuffer::new(16, connector).expect("the window has slots");
    let route = encode(&keys("你好吗"), &CompiledDictionary::new(), &mut b);
    assert_eq!(route, Ok((keys("你好吗"), 2)));
    assert_eq!(b.unknown_keys_count(), 0);
}

#[test]
fn schemes_may_change_an_uncovered_text() {
    let dict = CompiledDictionary::new();
    assert_eq!(run("ab", &dict, 16, Scheme::Separator), Ok(("a b".to_string(), 200)));
    assert_eq!(run("b", &dict, 16, Scheme::Overflow), Ok(("b ".to_string(), 100)));
    assert_eq!(run("a ,", &dict, 16, Scheme::Overflow), Ok(("a,".to_string(), 100)));
}

#[test]
fn every_matching_length_is_tried() {
    let dear = by_hand(vec![("ab", "x", 500), ("a", "y", 10), ("b", "z", 10)]);
    assert_eq!(run("ab", &dear, 16, Scheme::Concatenation), Ok(("yz".to_string(), 120)));
    let cheap = by_hand(vec![("ab", "x", 50), ("a", "y", 10), ("b", "z", 10)]);
    assert_eq!(run("ab", &cheap, 16, Scheme::Concatenation), Ok(("x".to_string(), 50)));
}

#[test]
fn fallback_is_for_positions_without_a_word() {
    let dict = by_hand(vec![("你", "nnnn", 900)]);
    assert_eq!(run("你好", &dict, 16, Scheme::Concatenation), Ok(("nnnn好".to_string(), 1000)));
}

#[test]
fn position_inside_a_word_starts_no_route() {
    let dict = compiled(vec![entry("你好", "ni3hao3", 1)], Scheme::Concatenation);
    assert_eq!(run("你好", &dict, 16, Scheme::Concatenation), Ok(("ni3hao3".to_string(), 600)));
    assert_eq!(run("你好你好", &dict, 16, Scheme::Concatenation), Ok(("ni3hao3ni3hao3".to_string(), 1300)));
}

#[test]
fn cost_is_codes_plus_junctions() {
    let dict = compiled(vec![entry("你好", "nh", 1), entry("吗", "m", 1)], Scheme::Concatenation);
    // "nh" costs 100, "m" costs nothing, and the junction of "h" and "m" 100.
    assert_eq!(run("你好吗", &dict, 16, Scheme::Concatenation), Ok(("nhm".to_string(), 200)));
    // Under the separator scheme the junction holds a space: two pairs.
    assert_eq!(run("你好吗", &dict, 16, Scheme::Separator), Ok(("nh m".to_string(), 300)));
    // Under the overflow scheme both codes are completed, which is paid for.
    assert_eq!(run("你好吗", &dict, 16, Scheme::Overflow), Ok(("nh m ".to_string(), 400)));
}

#[test]
fn runs_on_the_same_input_agree() {
    let entries = || vec![entry("你好", "nh", 1), entry("你", "n", 3), entry("好", "n", 2), entry("吗", "m", 1)];
    let first = run("你好吗你吗好", &compiled(entries(), Scheme::Separator), 16, Scheme::Separator);
    let second = run("你好吗你吗好", &compiled(entries(), Scheme::Separator), 16, Scheme::Separator);
    assert!(first.is_ok());
    assert_eq!(first, second);
}

#[test]
fn window_without_room_for_a_word_loses_the_route() {
    let dict = by_hand(vec![("你好", "nh", 100)]);
    assert_eq!(run("你好", &dict, 2, Scheme::Concatenation), Err(RouteError::UnreachableTail));
    assert_eq!(run("你好", &dict, 3, Scheme::Concatenation), Ok(("nh".to_string(), 100)));
}

#[test]
fn scan_goes_on_from_the_state_it_is_given() {
    let mut b = buffer(16, Scheme::Concatenation);
    let dict = CompiledDictionary::new();
    assert_eq!(encode(&keys("你"), &dict, &mut b), Ok((keys("你"), 0)));
    assert_eq!(encode(&keys("好"), &dict, &mut b), Ok((keys("你好"), 100)));
    b.connect_code(2, &keys("far"), 0);
    assert!(within_budget(1, &dict, &b));
    assert_eq!(encode(&keys("吗"), &dict, &mut b), Err(RouteError::UnterminatedRoute));
}

#[test]
fn budget_refuses_costs_beyond_the_machine() {
    let b = buffer(16, Scheme::Concatenation);
    let huge = by_hand(vec![("a", "x", u128::MAX)]);
    assert!(!within_budget(1, &huge, &b));
    assert!(within_budget(0, &huge, &b));
    let large = by_hand(vec![("a", "x", u128::MAX / 4)]);
    assert!(within_budget(1, &large, &b));
    assert!(!within_budget(3, &large, &b));
}

#[test]
fn window_bounds_what_the_buffer_holds() {
    let dict = compiled(
        vec![
            entry("a", "q", 0),
            entry("b", "w", 0),
            entry("c", "e", 0),
            entry("d", "r", 0),
            entry("ab", "t", 0),
            entry("abcd", "y", 0),
        ],
        Scheme::Concatenation,
    );
    assert_eq!(dict.max_word_len(), 4);
    let text: Vec<char> = "abcd".chars().cycle().take(10_000).collect();
    let mut b = buffer(16, Scheme::Concatenation);
    assert!(within_budget(text.len(), &dict, &b));
    let (route, cost) = encode(&text, &dict, &mut b).expect("the text has a route");
    assert_eq!(route, vec!['y'; 2_500]);
    assert_eq!(cost, 2_499 * 100);
    assert_eq!(b.window_size(), 16);
    assert!(b.live_len() <= 100);
    assert_eq!(b.settled_len() + b.live_len(), 2_500);
}
