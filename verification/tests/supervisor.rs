use rget::supervisor::{
    cooldown_end, hung_step, survey, ChunkView, Supervisor, COOLDOWN_NS, HUNG_BYTES, HUNG_NS,
    LAG_NS, LAG_NS_AGGRESSIVE, SAVE_NS, TICK_NS,
};

const SECOND: u64 = 1_000_000_000;

fn active(position: u64, length: u64) -> ChunkView {
    ChunkView {
        started: true,
        done: false,
        restarts: 0,
        cooldown_until: None,
        position,
        length,
    }
}

fn done(length: u64) -> ChunkView {
    ChunkView {
        done: true,
        ..active(length, length)
    }
}

#[test]
fn times_are_as_documented() {
    assert_eq!(TICK_NS, SECOND / 2);
    assert_eq!(HUNG_BYTES, 64 * 1024);
    assert_eq!(HUNG_NS, 15 * SECOND);
    assert_eq!(LAG_NS, 10 * SECOND);
    assert_eq!(LAG_NS_AGGRESSIVE, 5 * SECOND);
    assert_eq!(COOLDOWN_NS, 15 * SECOND);
    assert_eq!(SAVE_NS, 5 * SECOND);
    assert_eq!(cooldown_end(SECOND), 16 * SECOND);
    assert_eq!(cooldown_end(u64::MAX - 1), u64::MAX);
}

#[test]
fn the_slowest_chunk_is_found() {
    let idle = ChunkView {
        started: false,
        ..active(0, 10)
    };
    let views = vec![idle, active(50, 100), active(1, 3), done(5), active(2, 6)];
    assert_eq!(survey(&views), (3, 1, Some(2)));
    assert_eq!(survey(&vec![done(5), idle]), (0, 1, None));
    assert_eq!(survey(&vec![active(0, 0)]), (0, 0, None));
    let big = u64::MAX;
    assert_eq!(
        survey(&vec![active(big - 1, big), active(big - 2, big)]),
        (2, 0, Some(1))
    );
}

#[test]
fn the_slowest_chunk_is_shown() {
    let mut s = Supervisor::new(3, false, 0);
    let views = vec![active(30, 100), active(10, 100), done(100)];
    assert_eq!(s.highlight(0, &views, 29, 300), vec![]);
    assert_eq!(s.highlight(0, &views, 30, 300), vec![(1, true)]);
    assert_eq!(s.highlight(0, &views, 30, 300), vec![]);
    let views = vec![active(30, 100), active(40, 100), done(100)];
    assert_eq!(
        s.highlight(0, &views, 170, 300),
        vec![(0, true), (1, false)]
    );
    let views = vec![active(30, 100), done(100), done(100)];
    assert_eq!(s.highlight(0, &views, 230, 300), vec![(0, false)]);
}

#[test]
fn a_restarted_chunk_keeps_its_look_for_a_while() {
    let mut s = Supervisor::new(2, false, 0);
    let cooling = ChunkView {
        restarts: 1,
        cooldown_until: Some(100),
        ..active(10, 100)
    };
    let views = vec![cooling, active(50, 100)];
    assert_eq!(s.highlight(99, &views, 60, 200), vec![]);
    assert_eq!(s.highlight(100, &views, 60, 200), vec![(0, true)]);
}

#[test]
fn a_hung_chunk_is_restarted() {
    let mut s = Supervisor::new(2, false, 0);
    let len = 10 * HUNG_BYTES;
    assert_eq!(s.hung(0, &vec![active(0, len), active(0, len)]), vec![]);
    assert_eq!(s.marks, vec![Some((0, 0)), Some((0, 0))]);
    let views = vec![active(HUNG_BYTES - 1, len), active(HUNG_BYTES, len)];
    assert_eq!(s.hung(HUNG_NS - 1, &views), vec![]);
    assert_eq!(s.marks[1], Some((HUNG_BYTES, HUNG_NS - 1)));
    assert_eq!(s.hung(HUNG_NS, &views), vec![0]);
    assert_eq!(s.hung(HUNG_NS + 1, &views), vec![]);
}

#[test]
fn a_chunk_is_told_to_restart_once() {
    let once = ChunkView {
        restarts: 1,
        ..active(0, 100)
    };
    assert_eq!(hung_step(Some((0, 0)), &once, u64::MAX), (Some((0, 0)), false));
    let mut s = Supervisor::new(2, false, 0);
    let views = vec![once, done(100)];
    assert_eq!(s.lagging(0, &views), None);
    assert_eq!(s.lagging(u64::MAX, &views), None);
    assert_eq!(s.hung(u64::MAX, &views), vec![]);
    let cooling = ChunkView {
        cooldown_until: Some(HUNG_NS + 1),
        ..active(0, 100)
    };
    assert_eq!(
        hung_step(Some((0, 0)), &cooling, HUNG_NS),
        (Some((0, 0)), false)
    );
    assert_eq!(
        hung_step(Some((0, 0)), &cooling, HUNG_NS + 1),
        (Some((0, HUNG_NS + 1)), true)
    );
}

#[test]
fn a_laggard_is_restarted_by_default() {
    let mut s = Supervisor::new(3, false, 0);
    let views = vec![active(49, 100), active(90, 100), done(100)];
    assert_eq!(s.lagging(SECOND, &views), None);
    assert_eq!(s.lagging_since[0], Some(SECOND));
    assert_eq!(s.lagging(LAG_NS, &views), None);
    assert_eq!(s.lagging(LAG_NS + SECOND, &views), Some(0));
    let caught_up = vec![active(50, 100), active(90, 100), done(100)];
    assert_eq!(s.lagging(LAG_NS + SECOND, &caught_up), None);
    assert_eq!(s.lagging_since[0], None);
}

#[test]
fn a_laggard_among_many_waits() {
    let mut s = Supervisor::new(4, false, 0);
    let three = vec![active(1, 100), active(90, 100), active(95, 100), done(100)];
    assert_eq!(s.lagging(0, &three), None);
    assert_eq!(s.lagging(u64::MAX, &three), None);
    assert_eq!(s.lagging_since, vec![None; 4]);
    let none_done = vec![active(1, 100), active(90, 100)];
    let mut s = Supervisor::new(2, false, 0);
    assert_eq!(s.lagging(0, &none_done), None);
    assert_eq!(s.lagging(u64::MAX, &none_done), None);
}

#[test]
fn an_aggressive_supervisor_is_faster() {
    let mut s = Supervisor::new(5, true, 0);
    let two = vec![active(1, 9), active(8, 9), active(8, 9), done(9), done(9)];
    assert_eq!(s.lagging(0, &two), None);
    assert_eq!(s.lagging(u64::MAX, &two), None);
    let three = vec![active(1, 9), active(8, 9), done(9), done(9), done(9)];
    assert_eq!(s.lagging(0, &three), None);
    assert_eq!(s.lagging(LAG_NS_AGGRESSIVE - 1, &three), None);
    assert_eq!(s.lagging(LAG_NS_AGGRESSIVE, &three), Some(0));
}

#[test]
fn half_of_the_chunks_are_enough() {
    let mut s = Supervisor::new(4, true, 0);
    let views = vec![active(1, 9), active(8, 9), done(9), done(9)];
    assert_eq!(s.lagging(0, &views), None);
    assert_eq!(s.lagging(LAG_NS_AGGRESSIVE, &views), Some(0));
}

#[test]
fn progress_is_saved_now_and_then() {
    let mut s = Supervisor::new(1, false, SECOND);
    assert!(!s.save_due(SAVE_NS));
    assert!(s.save_due(SAVE_NS + SECOND));
    assert!(!s.save_due(SAVE_NS + SECOND));
    assert_eq!(s.last_save, SAVE_NS + SECOND);
}

#[test]
fn a_tick_does_it_all() {
    let mut s = Supervisor::new(3, false, 0);
    let views = vec![active(30, 100), active(90, 100), done(100)];
    let first = s.tick(SECOND, &views, 220, 300, true);
    assert!(!first.save);
    assert_eq!(first.restyle, vec![(0, true)]);
    assert_eq!(first.hung, vec![]);
    assert_eq!(first.lagging, None);
    let second = s.tick(11 * SECOND, &views, 220, 300, true);
    assert!(second.save);
    assert_eq!(second.restyle, vec![]);
    assert_eq!(second.hung, vec![]);
    assert_eq!(second.lagging, Some(0));
    let third = s.tick(16 * SECOND, &views, 220, 300, false);
    assert!(!third.save);
    assert_eq!(third.hung, vec![0, 1]);
    assert_eq!(s.last_save, 11 * SECOND);
}

#[test]
fn hung_chunks_come_slowest_first() {
    let mut s = Supervisor::new(4, false, 0);
    let views = vec![
        active(50, 100),
        active(10, 100),
        done(100),
        active(5, 10),
    ];
    assert_eq!(s.hung(0, &views), vec![]);
    assert_eq!(s.hung(HUNG_NS, &views), vec![1, 0, 3]);
}
