use code_racer::dict_loader::{load_dict, sort_items};
use code_racer::entry::Entry;
use code_racer::route_buffer::RouteBuffer;
use code_racer::route_connector::{RouteConnector, Scheme};
use code_racer::text_encoder::{encode, within_budget};
use code_racer::timing::TimingTable;

fn chars(s: &str) -> Vec<char> {
    s.chars().collect()
}

fn entry(word: &str, code: &str, priority: usize) -> Entry {
    Entry { word: chars(word), code: chars(code), priority }
}

fn table_for(code: &str, fine: u32) -> TimingTable {
    let keys = chars(code);
    let mut table = TimingTable::new();
    for i in 1..keys.len() {
        table.insert(keys[i - 1], keys[i], fine);
    }
    table
}

#[test]
fn single_word_is_typed_by_its_code() {
    let mut compiling = RouteConnector::new(table_for("ni3hao3", 300_000), Scheme::Concatenation);
    let (dict, longest) = load_dict(&vec![entry("你好", "ni3hao3", 1)], &vec![], &mut compiling)
        .expect("one entry compiles");
    assert_eq!(longest, 2);
    let connector = RouteConnector::new(table_for("ni3hao3", 300_000), Scheme::Concatenation);
    let mut buffer = RouteBuffer::new(16, connector).expect("a window of 16 slots");
    let text = chars("你好");
    assert!(within_budget(text.len(), &dict, &buffer));
    let (route, cost) = encode(&text, &dict, &mut buffer).expect("the text has a route");
    assert_eq!(route, chars("ni3hao3"));
    assert_eq!(cost, 180);
    assert_eq!(buffer.unknown_keys_count(), 0);
}

#[test]
fn colliding_codes_are_told_apart() {
    let mut connector = RouteConnector::new(TimingTable::new(), Scheme::Concatenation);
    let sorted = sort_items(&vec![entry("乙", "ab", 0), entry("甲", "ab", 0)]);
    assert_eq!(sorted, vec![entry("乙", "ab", 0), entry("甲", "ab", 0)]);
    let (dict, _) = load_dict(&vec![entry("甲", "ab", 0), entry("乙", "ab", 0)], &vec![], &mut connector)
        .expect("two entries compile");
    let first = dict.lookup('乙').expect("the first word is kept");
    let second = dict.lookup('甲').expect("the second word is kept");
    assert_eq!(first[0].code, chars("ab"));
    assert_eq!(second[0].code, chars("ab2"));
}
