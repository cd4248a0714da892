use adhoc_sim::model::{ConnMap, DEFAULT_DELAY, DEVIATION, MIN_DELAY, PROB_ONE};

#[test]
fn link_constants() {
    assert_eq!(MIN_DELAY, 10);
    assert_eq!(DEFAULT_DELAY, 50);
    assert_eq!(DEVIATION, 10);
    assert_eq!(PROB_ONE, 1_000_000);
}

#[test]
fn new_map_has_no_link() {
    let conn = ConnMap::new();
    for from in 0..4u32 {
        for to in 0..4u32 {
            assert_eq!(conn.prob(from, to), 0);
            assert_eq!(conn.delay(from, to), 0);
            assert_eq!(conn.mean_delay(from, to), 50);
            assert_eq!(conn.get(from, to, Some(50)), None);
            assert!(!conn.test(from, to, Some(50)));
        }
    }
    let conn = ConnMap::default();
    assert_eq!(conn.prob(0, 1), 0);
}

#[test]
fn links_are_directed() {
    let mut conn = ConnMap::new();
    conn.update(1, 2, PROB_ONE, 5);
    assert_eq!(conn.prob(1, 2), PROB_ONE);
    assert_eq!(conn.delay(1, 2), 5);
    assert_eq!(conn.mean_delay(1, 2), 55);
    assert_eq!(conn.prob(2, 1), 0);
    assert_eq!(conn.delay(2, 1), 0);
    assert_eq!(conn.get(1, 2, Some(40)), Some(40));
    assert_eq!(conn.get(2, 1, Some(40)), None);
}

#[test]
fn update_both_is_symmetric() {
    let mut conn = ConnMap::new();
    conn.update_both(0, 3, 250_000, -20);
    assert_eq!(conn.prob(0, 3), 250_000);
    assert_eq!(conn.prob(3, 0), 250_000);
    assert_eq!(conn.delay(0, 3), -20);
    assert_eq!(conn.delay(3, 0), -20);
    assert_eq!(conn.mean_delay(3, 0), 30);
    assert_eq!(conn.prob(0, 0), 0);
    assert_eq!(conn.prob(3, 3), 0);
    conn.update_prob_both(0, 3, 7);
    assert_eq!(conn.prob(0, 3), 7);
    assert_eq!(conn.prob(3, 0), 7);
    assert_eq!(conn.delay(0, 3), -20);
    conn.update_delay_both(0, 3, 9);
    assert_eq!(conn.delay(0, 3), 9);
    assert_eq!(conn.delay(3, 0), 9);
    assert_eq!(conn.prob(3, 0), 7);
}

#[test]
fn probability_zero_takes_the_link_down() {
    let mut conn = ConnMap::new();
    conn.update_both(4, 5, PROB_ONE, 3);
    conn.update_prob(4, 5, 0);
    assert_eq!(conn.prob(4, 5), 0);
    assert_eq!(conn.prob(5, 4), PROB_ONE);
    assert_eq!(conn.delay(4, 5), 3);
    for raw in [i32::MIN, -1, 0, 10, 50, i32::MAX] {
        assert_eq!(conn.get(4, 5, Some(raw)), None);
        assert!(!conn.test(4, 5, Some(raw)));
    }
    assert_eq!(conn.get(4, 5, None), None);
    assert_eq!(conn.get(5, 4, Some(33)), Some(33));
}

#[test]
fn delay_is_clamped_from_below() {
    let mut conn = ConnMap::new();
    conn.update(0, 1, 1, 0);
    assert_eq!(conn.get(0, 1, Some(i32::MIN)), Some(10));
    assert_eq!(conn.get(0, 1, Some(-3)), Some(10));
    assert_eq!(conn.get(0, 1, Some(0)), Some(10));
    assert_eq!(conn.get(0, 1, Some(9)), Some(10));
    assert_eq!(conn.get(0, 1, Some(10)), Some(10));
    assert_eq!(conn.get(0, 1, Some(11)), Some(11));
    assert_eq!(conn.get(0, 1, Some(50)), Some(50));
    assert_eq!(conn.get(0, 1, Some(i32::MAX)), Some(i32::MAX as u32));
}

#[test]
fn a_lost_message_has_no_delay() {
    let mut conn = ConnMap::new();
    conn.update(0, 1, PROB_ONE, 0);
    assert_eq!(conn.get(0, 1, None), None);
    assert!(!conn.test(0, 1, None));
    assert!(conn.test(0, 1, Some(-100)));
}

#[test]
fn distinct_pairs_do_not_collide() {
    let mut conn = ConnMap::new();
    conn.update(0, 1, 1, 1);
    conn.update(1, 0, 2, 2);
    conn.update(0, u32::MAX, 3, 3);
    conn.update(u32::MAX, 0, 4, 4);
    conn.update(u32::MAX, u32::MAX, 5, 5);
    conn.update(1, 1, 6, 6);
    assert_eq!((conn.prob(0, 1), conn.delay(0, 1)), (1, 1));
    assert_eq!((conn.prob(1, 0), conn.delay(1, 0)), (2, 2));
    assert_eq!((conn.prob(0, u32::MAX), conn.delay(0, u32::MAX)), (3, 3));
    assert_eq!((conn.prob(u32::MAX, 0), conn.delay(u32::MAX, 0)), (4, 4));
    assert_eq!((conn.prob(u32::MAX, u32::MAX), conn.delay(u32::MAX, u32::MAX)), (5, 5));
    assert_eq!((conn.prob(1, 1), conn.delay(1, 1)), (6, 6));
    assert_eq!((conn.prob(0, 0), conn.delay(0, 0)), (0, 0));
}

#[test]
fn mean_delay_does_not_overflow() {
    let mut conn = ConnMap::new();
    conn.update_delay(0, 1, i32::MAX);
    conn.update_delay(1, 0, i32::MIN);
    assert_eq!(conn.mean_delay(0, 1), i32::MAX as i64 + 50);
    assert_eq!(conn.mean_delay(1, 0), i32::MIN as i64 + 50);
}
