use code_racer::route_buffer::{window_for, RouteBuffer, RouteError};
use code_racer::route_connector::{RouteConnector, Scheme};
use code_racer::timing::TimingTable;

fn keys(s: &str) -> Vec<char> {
    s.chars().collect()
}

fn buffer(size: usize, scheme: Scheme) -> RouteBuffer {
    let connector = RouteConnector::with_fallback(TimingTable::new(), scheme, 1_000_000);
    RouteBuffer::new(size, connector).expect("the window has slots")
}

#[test]
fn window_needs_a_slot() {
    let connector = RouteConnector::new(TimingTable::new(), Scheme::Concatenation);
    assert!(RouteBuffer::new(0, connector).is_none());
    let fresh = buffer(3, Scheme::Concatenation);
    assert_eq!(fresh.window_size(), 3);
    assert_eq!(fresh.distance(), 0);
    assert_eq!(fresh.count(), 0);
    assert!(!fresh.is_connected());
    assert_eq!(fresh.live_len(), 0);
    assert_eq!(fresh.live_cost(), 0);
    assert_eq!(fresh.settled_len(), 0);
    assert_eq!(fresh.peak_cost(), 0);
    assert_eq!(fresh.unknown_keys_count(), 0);
}

#[test]
fn window_leaves_room_for_the_longest_word() {
    assert_eq!(window_for(0), 16);
    assert_eq!(window_for(15), 16);
    assert_eq!(window_for(16), 17);
    assert_eq!(window_for(100), 101);
    assert_eq!(window_for(usize::MAX), usize::MAX);
}

#[test]
fn fresh_buffer_holds_the_empty_route() {
    let fresh = buffer(4, Scheme::Concatenation);
    assert_eq!(fresh.get_global_best_route(), Ok((keys(""), 0)));
}

#[test]
fn route_is_given_when_nothing_is_pending() {
    let mut b = buffer(4, Scheme::Concatenation);
    b.connect_code(1, &keys("a"), 5);
    assert!(b.is_connected());
    assert_eq!(b.distance(), 1);
    assert_eq!(b.get_global_best_route(), Err(RouteError::UnterminatedRoute));
    b.next();
    assert!(!b.is_connected());
    assert_eq!(b.distance(), 0);
    assert_eq!(b.count(), 1);
    assert_eq!(b.get_global_best_route(), Ok((keys("a"), 5)));
    b.connect_code(2, &keys("bc"), 7);
    assert_eq!(b.distance(), 2);
    b.next();
    assert_eq!(b.get_global_best_route(), Err(RouteError::UnterminatedRoute));
    // No route ends here: a candidate has nothing to be connected to.
    b.connect_code(1, &keys("z"), 0);
    assert!(b.is_connected());
    assert_eq!(b.distance(), 1);
    b.next();
    assert_eq!(b.get_global_best_route(), Ok((keys("abc"), 112)));
    assert_eq!(b.peak_cost(), 112);
    assert_eq!(b.report_unknown_keys(), vec![keys("ab")]);
}

#[test]
fn skipped_position_leaves_the_tail_unreachable() {
    let mut b = buffer(4, Scheme::Concatenation);
    b.next();
    assert_eq!(b.distance(), 0);
    assert_eq!(b.get_global_best_route(), Err(RouteError::UnreachableTail));
}

#[test]
fn cheaper_route_wins_and_shorter_on_a_tie() {
    let mut b = buffer(4, Scheme::Concatenation);
    b.connect_code(1, &keys("ab"), 10);
    b.connect_code(1, &keys("c"), 10);
    b.connect_code(1, &keys("d"), 10);
    b.connect_code(1, &keys("efg"), 9);
    b.connect_code(1, &keys("h"), 11);
    b.next();
    assert_eq!(b.get_global_best_route(), Ok((keys("efg"), 9)));
    let mut tie = buffer(4, Scheme::Concatenation);
    tie.connect_code(1, &keys("ab"), 10);
    tie.connect_code(1, &keys("c"), 10);
    tie.connect_code(1, &keys("d"), 10);
    tie.next();
    assert_eq!(tie.get_global_best_route(), Ok((keys("c"), 10)));
}

#[test]
fn target_slot_wraps_around_the_window() {
    let mut b = buffer(3, Scheme::Concatenation);
    for _ in 0..2 {
        b.connect_code(1, &keys("a"), 0);
        b.next();
    }
    assert_eq!(b.get_global_best_route(), Ok((keys("aa"), 100)));
    b.connect_code(2, &keys("b"), 0);
    b.next();
    assert_eq!(b.live_len(), 0);
    b.connect_code(1, &keys("z"), 0);
    b.next();
    assert_eq!(b.get_global_best_route(), Ok((keys("aab"), 200)));
    for _ in 0..7 {
        b.connect_code(1, &keys("c"), 0);
        b.next();
    }
    assert_eq!(b.get_global_best_route(), Ok((keys("aabccccccc"), 900)));
}

#[test]
fn long_head_route_is_settled() {
    let mut b = buffer(4, Scheme::Concatenation);
    b.connect_code(1, &vec!['x'; 100], 0);
    b.next();
    assert_eq!((b.settled_len(), b.live_len()), (0, 100));
    b.connect_code(1, &keys("y"), 0);
    b.next();
    assert_eq!((b.settled_len(), b.live_len()), (96, 5));
    let (route, cost) = b.get_global_best_route().expect("a route ends here");
    let mut whole = vec!['x'; 100];
    whole.push('y');
    assert_eq!(route, whole);
    assert_eq!(cost, 100);
}

#[test]
fn settling_leaves_two_keystrokes() {
    let mut b = buffer(4, Scheme::Concatenation);
    b.connect_code(1, &vec!['x'; 97], 0);
    b.next();
    b.connect_code(1, &keys("y"), 0);
    b.next();
    assert_eq!((b.settled_len(), b.live_len()), (95, 3));
    let mut short = buffer(4, Scheme::Concatenation);
    short.connect_code(1, &vec!['x'; 96], 0);
    short.next();
    short.connect_code(1, &keys("y"), 0);
    short.next();
    assert_eq!((short.settled_len(), short.live_len()), (0, 97));
}

#[test]
fn pending_candidates_keep_the_head_route_whole() {
    let mut b = buffer(4, Scheme::Concatenation);
    b.connect_code(1, &vec!['x'; 100], 0);
    b.connect_code(2, &keys("far"), 0);
    b.next();
    assert_eq!(b.distance(), 1);
    b.connect_code(1, &keys("y"), 0);
    assert_eq!(b.settled_len(), 0);
}

#[test]
fn settled_space_can_still_be_taken_away() {
    // The route ends in a completed phonetic code when it is cut; the
    // punctuation that follows takes the space away as if nothing was cut.
    let mut b = buffer(4, Scheme::Overflow);
    b.connect_code(1, &vec!['a'; 95], 0);
    b.next();
    b.connect_code(1, &keys("b"), 0);
    b.next();
    assert_eq!((b.settled_len(), b.live_len(), b.live_cost()), (0, 97, 200));
    b.connect_code(1, &keys(","), 0);
    b.next();
    let (route, cost) = b.get_global_best_route().expect("a route ends here");
    let mut whole = vec!['a'; 95];
    whole.push('b');
    whole.push(',');
    assert_eq!(route, whole);
    assert_eq!(cost, 200);
    assert_eq!((b.settled_len(), b.live_len()), (95, 2));
}
