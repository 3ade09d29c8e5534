use code_racer::config_loader::read_timing_line;
use code_racer::dict_loader::{convert_items, load_dict, sort_items, DictionaryError};
use code_racer::dictionary::{Candidate, CompiledDictionary};
use code_racer::entry::{precedes, Entry};
use code_racer::lines::{comment_start, split_fields};
use code_racer::rime::{parse_priority, read_rime_file, read_rime_line};
use code_racer::route_connector::{RouteConnector, Scheme};
use code_racer::seq_table::SeqTable;
use code_racer::timing::TimingTable;
use code_racer::unique_code::get_unique_code;

fn keys(s: &str) -> Vec<char> {
    s.chars().collect()
}

fn entry(word: &str, code: &str, priority: usize) -> Entry {
    Entry { word: keys(word), code: keys(code), priority }
}

fn flat() -> RouteConnector {
    RouteConnector::with_fallback(TimingTable::new(), Scheme::Concatenation, 1_000_000)
}

fn codes_of(dict: &CompiledDictionary, first: char) -> Vec<String> {
    match dict.lookup(first) {
        Some(group) => group.iter().map(|c| c.code.iter().collect()).collect(),
        None => Vec::new(),
    }
}

#[test]
fn higher_priority_comes_first() {
    let sorted = sort_items(&vec![entry("a", "x", 1), entry("b", "y", 5), entry("c", "z", 3)]);
    assert_eq!(sorted, vec![entry("b", "y", 5), entry("c", "z", 3), entry("a", "x", 1)]);
}

#[test]
fn fewer_keystrokes_per_character_come_first() {
    let sorted =
        sort_items(&vec![entry("一", "abc", 0), entry("一二三", "abcd", 0), entry("二", "ab", 0)]);
    assert_eq!(
        sorted,
        vec![entry("一二三", "abcd", 0), entry("二", "ab", 0), entry("一", "abc", 0)]
    );
}

#[test]
fn equal_ratios_are_ordered_by_word_then_code() {
    let sorted = sort_items(&vec![
        entry("乙", "ab", 0),
        entry("甲", "zz", 0),
        entry("甲", "aa", 0),
        entry("乙乙", "abcd", 0),
    ]);
    assert_eq!(
        sorted,
        vec![
            entry("乙", "ab", 0),
            entry("乙乙", "abcd", 0),
            entry("甲", "aa", 0),
            entry("甲", "zz", 0),
        ]
    );
}

#[test]
fn repeated_entries_are_kept_once() {
    let sorted = sort_items(&vec![
        entry("a", "x", 1),
        entry("b", "y", 1),
        entry("a", "x", 1),
        entry("a", "x", 2),
        entry("b", "y", 1),
    ]);
    assert_eq!(sorted, vec![entry("a", "x", 2), entry("a", "x", 1), entry("b", "y", 1)]);
    assert_eq!(sort_items(&vec![]), Vec::<Entry>::new());
}

#[test]
fn sorting_does_not_depend_on_the_order_given() {
    let one = vec![entry("c", "z", 3), entry("a", "x", 1), entry("b", "y", 5), entry("a", "w", 1)];
    let other = vec![entry("a", "w", 1), entry("b", "y", 5), entry("a", "x", 1), entry("c", "z", 3)];
    assert_eq!(sort_items(&one), sort_items(&other));
}

#[test]
fn entry_order_is_strict() {
    let a = entry("a", "x", 1);
    let b = entry("a", "xy", 1);
    assert!(precedes(&a, &b));
    assert!(!precedes(&b, &a));
    assert!(!precedes(&a, &a));
    assert!(a.same(&a.copy()));
    assert!(!a.same(&b));
}

#[test]
fn colliding_codes_get_digits_then_pages() {
    let mut claimed = SeqTable::new();
    let mut got: Vec<String> = Vec::new();
    for _ in 0..20 {
        got.push(get_unique_code(&mut claimed, &keys("ab")).iter().collect());
    }
    assert_eq!(
        got,
        vec![
            "ab", "ab2", "ab3", "ab4", "ab5", "ab6", "ab7", "ab8", "ab9", "ab=", "ab=2", "ab=3",
            "ab=4", "ab=5", "ab=6", "ab=7", "ab=8", "ab=9", "ab==", "ab==2"
        ]
    );
    assert_eq!(claimed.len(), 20);
    assert_eq!(get_unique_code(&mut claimed, &keys("ab2")), keys("ab22"));
    assert_eq!(get_unique_code(&mut claimed, &keys("cd")), keys("cd"));
    assert_eq!(claimed.find(&keys("ab=")), Some(9));
    assert_eq!(claimed.find(&keys("zz")), None);
    assert_eq!(claimed.get(1), &keys("ab2"));
}

#[test]
fn second_entry_on_a_code_gets_the_digit_two() {
    let mut connector = flat();
    let (dict, longest) =
        convert_items(&sort_items(&vec![entry("甲", "ab", 0), entry("乙", "ab", 0)]), &mut connector);
    assert_eq!(codes_of(&dict, '乙'), vec!["ab"]);
    assert_eq!(codes_of(&dict, '甲'), vec!["ab2"]);
    assert_eq!(longest, 1);
}

#[test]
fn each_word_keeps_its_cheapest_code() {
    let mut table = TimingTable::new();
    table.insert('a', 'b', 900_000);
    table.insert('c', 'd', 100_000);
    let mut connector = RouteConnector::new(table, Scheme::Concatenation);
    let (dict, _) = load_dict(
        &vec![entry("好", "ab", 9), entry("好", "cd", 1), entry("你", "ab", 0)],
        &vec![],
        &mut connector,
    )
    .expect("entries compile");
    let good = dict.lookup('好').expect("the word is kept");
    assert_eq!(good.len(), 1);
    assert_eq!(good[0], Candidate { word: keys("好"), code: keys("cd"), cost: 10 });
    // The dearer code stays claimed though its word gave it up.
    let you = dict.lookup('你').expect("the word is kept");
    assert_eq!(you[0], Candidate { word: keys("你"), code: keys("ab2"), cost: 90 + 150 });
    assert_eq!(connector.unknown_keys_count(), 1);
}

#[test]
fn equal_cost_keeps_the_shorter_code() {
    let mut table = TimingTable::new();
    table.insert('a', 'b', 0);
    table.insert('b', 'c', 0);
    table.insert('x', 'y', 0);
    let mut connector = RouteConnector::new(table, Scheme::Concatenation);
    let (dict, _) = load_dict(
        &vec![entry("好", "abc", 9), entry("好", "xy", 1)],
        &vec![],
        &mut connector,
    )
    .expect("entries compile");
    assert_eq!(codes_of(&dict, '好'), vec!["xy"]);
    let mut again = flat();
    let (dict, _) = load_dict(
        &vec![entry("好", "xy", 9), entry("好", "ab", 1)],
        &vec![],
        &mut again,
    )
    .expect("entries compile");
    assert_eq!(codes_of(&dict, '好'), vec!["xy"]);
}

#[test]
fn dictionary_and_punctuation_are_compiled_together() {
    let mut connector = flat();
    let (dict, longest) = load_dict(
        &vec![entry("你好", "nh", 1), entry("你", "n", 1), entry("你们", "nm", 1)],
        &vec![entry("，", ",", 0), entry("你", "n", 1)],
        &mut connector,
    )
    .expect("entries compile");
    assert_eq!(longest, 2);
    assert_eq!(dict.max_word_len(), 2);
    assert_eq!(dict.max_group_len(), 3);
    assert_eq!(dict.max_cost(), 100);
    assert_eq!(codes_of(&dict, '你'), vec!["n", "nm", "nh"]);
    assert_eq!(codes_of(&dict, '，'), vec![","]);
    assert_eq!(codes_of(&dict, '好'), Vec::<String>::new());
    assert!(!dict.is_empty());
}

#[test]
fn no_entry_is_an_empty_dictionary() {
    let mut connector = flat();
    assert_eq!(
        load_dict(&vec![], &vec![], &mut connector).err(),
        Some(DictionaryError::EmptyDictionary)
    );
    assert!(CompiledDictionary::new().is_empty());
}

#[test]
fn compiled_codes_are_all_different() {
    let mut connector = flat();
    let mut items = Vec::new();
    for (i, word) in "天地玄黄宇宙洪荒日月盈昃辰宿列张".chars().enumerate() {
        items.push(Entry { word: vec![word], code: keys(if i % 2 == 0 { "aa" } else { "bb" }), priority: i % 3 });
        items.push(Entry { word: vec![word, word], code: keys("aa"), priority: 0 });
    }
    let (dict, _) = load_dict(&items, &vec![], &mut connector).expect("entries compile");
    let mut seen: Vec<Vec<char>> = Vec::new();
    for word in "天地玄黄宇宙洪荒日月盈昃辰宿列张".chars() {
        for cand in dict.lookup(word).expect("every word is kept") {
            assert!(!seen.contains(&cand.code));
            seen.push(cand.code.clone());
        }
    }
    assert_eq!(seen.len(), 32);
}

#[test]
fn dictionary_can_be_built_by_hand() {
    let mut dict = CompiledDictionary::new();
    dict.insert(Candidate { word: keys("ab"), code: keys("x"), cost: 5 });
    dict.insert(Candidate { word: keys("a"), code: keys("y"), cost: 9 });
    dict.insert(Candidate { word: keys("b"), code: keys("z"), cost: 1 });
    assert_eq!(codes_of(&dict, 'a'), vec!["x", "y"]);
    assert_eq!(codes_of(&dict, 'b'), vec!["z"]);
    assert_eq!(dict.max_word_len(), 2);
    assert_eq!(dict.max_cost(), 9);
    assert_eq!(dict.max_group_len(), 2);
    assert_eq!(dict.lookup('a').unwrap()[1].copy(), Candidate { word: keys("a"), code: keys("y"), cost: 9 });
}

#[test]
fn priorities_are_plain_numbers() {
    assert_eq!(parse_priority(&keys("0")), 0);
    assert_eq!(parse_priority(&keys("42")), 42);
    assert_eq!(parse_priority(&keys("+42")), 42);
    assert_eq!(parse_priority(&keys("007")), 7);
    assert_eq!(parse_priority(&keys("")), 0);
    assert_eq!(parse_priority(&keys("+")), 0);
    assert_eq!(parse_priority(&keys("-1")), 0);
    assert_eq!(parse_priority(&keys("1.5")), 0);
    assert_eq!(parse_priority(&keys(" 1")), 0);
    assert_eq!(parse_priority(&keys("12a")), 0);
    assert_eq!(parse_priority(&keys(&usize::MAX.to_string())), usize::MAX);
    assert_eq!(parse_priority(&keys("340282366920938463463374607431768211456")), 0);
}

#[test]
fn lines_are_split_at_tabs_before_the_comment() {
    assert_eq!(comment_start(&keys("ab#cd#e")), 2);
    assert_eq!(comment_start(&keys("abc")), 3);
    assert_eq!(split_fields(&keys("a\tbc\t"), 5), vec![keys("a"), keys("bc"), keys("")]);
    assert_eq!(split_fields(&keys("a\tbc\t"), 3), vec![keys("a"), keys("b")]);
    assert_eq!(split_fields(&keys(""), 0), vec![keys("")]);
}

#[test]
fn dictionary_lines_have_two_or_three_fields() {
    assert_eq!(read_rime_line(&keys("你好\tnh")), Some(entry("你好", "nh", 0)));
    assert_eq!(read_rime_line(&keys("你好\tnh\t12")), Some(entry("你好", "nh", 12)));
    assert_eq!(read_rime_line(&keys("你好\tnh\tmany")), Some(entry("你好", "nh", 0)));
    assert_eq!(read_rime_line(&keys("你好\tnh # a greeting")), Some(entry("你好", "nh ", 0)));
    assert_eq!(read_rime_line(&keys("你好\tnh#\t7")), Some(entry("你好", "nh", 0)));
    assert_eq!(read_rime_line(&keys("\tnh")), Some(entry("", "nh", 0)));
    assert_eq!(read_rime_line(&keys("你好")), None);
    assert_eq!(read_rime_line(&keys("")), None);
    assert_eq!(read_rime_line(&keys("# only a comment")), None);
    assert_eq!(read_rime_line(&keys("a\tb\t1\t2")), None);
}

#[test]
fn dictionary_files_give_their_entries_in_order() {
    let lines = vec![keys("# header"), keys("你\tn\t3"), keys("broken"), keys("好\th")];
    assert_eq!(read_rime_file(&lines), vec![entry("你", "n", 3), entry("好", "h", 0)]);
    assert_eq!(read_rime_file(&vec![]), Vec::<Entry>::new());
}

#[test]
fn timing_lines_name_a_pair_and_a_cost() {
    let read = read_timing_line(&keys("ab\t1.25")).expect("a well-formed line");
    assert_eq!((read.first, read.second, read.cost), ('a', 'b', keys("1.25")));
    let read = read_timing_line(&keys("a \tsoon")).expect("a well-formed line");
    assert_eq!((read.first, read.second, read.cost), ('a', ' ', keys("soon")));
    assert!(read_timing_line(&keys("abc\t1.25")).is_none());
    assert!(read_timing_line(&keys("ab")).is_none());
    assert!(read_timing_line(&keys("ab\t1\t2")).is_none());
    assert!(read_timing_line(&keys("")).is_none());
}
