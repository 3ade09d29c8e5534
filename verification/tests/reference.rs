use code_racer::dictionary::{Candidate, CompiledDictionary};
use code_racer::route_buffer::RouteBuffer;
use code_racer::route_connector::{RouteConnector, Scheme};
use code_racer::text_encoder::{encode, stands_at, within_budget};
use code_racer::timing::TimingTable;

struct Dice(u64);

impl Dice {
    fn roll(&mut self, sides: u64) -> u64 {
        self.0 = self.0.wrapping_mul(6364136223846793005).wrapping_add(1442695040888963407);
        (self.0 >> 33) % sides
    }

    fn pick(&mut self, from: &[char]) -> char {
        from[self.roll(from.len() as u64) as usize]
    }

    fn word(&mut self, from: &[char], longest: u64) -> Vec<char> {
        (0..1 + self.roll(longest)).map(|_| self.pick(from)).collect()
    }
}

fn table(dice: &mut Dice, keys: &[char]) -> TimingTable {
    let mut table = TimingTable::new();
    for &a in keys {
        for &b in keys {
            if dice.roll(4) != 0 {
                table.insert(a, b, dice.roll(3_000_000) as u32);
            }
        }
    }
    table
}

// The same recurrence with a slot for every position of the text, and no
// route ever cut.
fn unbounded(
    text: &Vec<char>,
    dict: &CompiledDictionary,
    connector: &mut RouteConnector,
) -> (Vec<char>, u128) {
    let mut best: Vec<Option<(Vec<char>, u128)>> = vec![None; text.len() + 1];
    best[0] = Some((Vec::new(), 0));
    for i in 0..text.len() {
        let (prefix, cost) = match best[i].clone() {
            Some(route) => route,
            None => continue,
        };
        let mut offers: Vec<(usize, Vec<char>, u128)> = Vec::new();
        if let Some(group) = dict.lookup(text[i]) {
            for cand in group {
                if stands_at(text, i, &cand.word) {
                    offers.push((cand.word.len(), cand.code.clone(), cand.cost));
                }
            }
        }
        if offers.is_empty() {
            offers.push((1, vec![text[i]], 0));
        }
        for (len, code, own) in offers {
            let merged = connector.connect(&prefix, &code, cost, own);
            let wins = match &best[i + len] {
                None => true,
                Some(held) => {
                    merged.1 < held.1 || (merged.1 == held.1 && merged.0.len() < held.0.len())
                }
            };
            if wins {
                best[i + len] = Some(merged);
            }
        }
    }
    best[text.len()].clone().expect("a route ends at the end of the text")
}

fn compare(seed: u64, scheme: Scheme, text_len: u64) {
    let mut dice = Dice(seed);
    let text_keys: Vec<char> = "你好吗ab ,".chars().collect();
    let code_keys: Vec<char> = "abiv ,;5".chars().collect();
    let timing = table(&mut dice, &code_keys);
    let mut dict = CompiledDictionary::new();
    for _ in 0..dice.roll(12) {
        let word = dice.word(&text_keys, 4);
        let code = dice.word(&code_keys, 5);
        let cost = dice.roll(400) as u128;
        dict.insert(Candidate { word, code, cost });
    }
    let text: Vec<char> = (0..text_len).map(|_| dice.pick(&text_keys)).collect();
    let window = 5 + dice.roll(12) as usize;

    let mut buffer = RouteBuffer::new(window, RouteConnector::new(timing.clone(), scheme))
        .expect("the window has slots");
    assert!(within_budget(text.len(), &dict, &buffer));
    let routed = encode(&text, &dict, &mut buffer).expect("the text has a route");

    let mut connector = RouteConnector::new(timing, scheme);
    let expected = unbounded(&text, &dict, &mut connector);
    assert_eq!(routed, expected);
    assert_eq!(buffer.report_unknown_keys(), connector.report_unknown_keys());
    assert_eq!(buffer.count(), text.len());
    assert_eq!(buffer.window_size(), window);
}

#[test]
fn window_does_not_change_the_route_under_the_separator_scheme() {
    for seed in 0..60 {
        compare(seed, Scheme::Separator, 40 + 7 * seed);
    }
}

#[test]
fn window_does_not_change_the_route_under_the_concatenation_scheme() {
    for seed in 100..160 {
        compare(seed, Scheme::Concatenation, 7 * (seed - 100));
    }
}

#[test]
fn window_does_not_change_the_route_under_the_overflow_scheme() {
    for seed in 200..260 {
        compare(seed, Scheme::Overflow, 40 + 7 * (seed - 200));
    }
}
