use delayed_proxy::timer_wheel::{TimerWheel, MILLIS_TO_CYCLES};

const START: u64 = 1_000_000_000_000;

#[test]
fn event_timing() {
    let start = START;
    let mut wheel: TimerWheel<u16> = TimerWheel::new(128, 16 * MILLIS_TO_CYCLES, 128, start);

    for j in 0..128u16 {
        let n_millis: u16 = j * 16 + 8;
        let _slot = wheel.schedule(&(start + (n_millis as u64) * MILLIS_TO_CYCLES), n_millis);
    }

    let mut now = start;
    for _i in 0..1024 {
        // proceed with 2 ms ticks
        now += 2 * MILLIS_TO_CYCLES;
        match wheel.tick(&now) {
            (Some(drain), _more) => {
                let event = drain.first().copied();
                if let Some(event) = event {
                    assert_eq!((now - start) / 16 / MILLIS_TO_CYCLES, (event / 16) as u64);
                } else {
                    assert!(false);
                }; // there must be one event in each slot
            }
            (None, _more) => (),
        }
    }
    // test that wheel overflow does not break the code:
    wheel.schedule(&(now + 5000u64 * MILLIS_TO_CYCLES), 5000);

    let mut found_it: bool = false;
    for _i in 0..1024 {
        now += 2 * MILLIS_TO_CYCLES;
        match wheel.tick(&now) {
            (Some(drain), _more) => {
                if let Some(event) = drain.first() {
                    assert_eq!(5000, *event as u64);
                    found_it = true;
                }
            }
            (None, _more) => (),
        }
    }
    assert!(found_it);
}

#[test]
fn schedule_returns_slot_of_deadline() {
    // start = 100 - 10 = 90; deadline 125 is 35 cycles on: advance 3, slot 2
    let mut wheel: TimerWheel<u32> = TimerWheel::new(8, 10, 4, 100);
    assert_eq!(wheel.schedule(&125, 1), 2);
    // advance 11 wraps to slot (11 - 1) mod 8 = 2
    assert_eq!(wheel.schedule(&(90 + 115), 2), 2);
    // a deadline before the wheel's first slot goes to the last slot
    assert_eq!(wheel.schedule(&5, 3), 7);
    assert_eq!(wheel.schedule(&95, 4), 7);
}

#[test]
fn max_timeout_and_resolution() {
    let wheel: TimerWheel<u8> = TimerWheel::new(128, 16 * MILLIS_TO_CYCLES, 1, START);
    assert_eq!(wheel.get_resolution(), 16 * MILLIS_TO_CYCLES);
    assert_eq!(wheel.get_max_timeout_cycles(), 127 * 16 * MILLIS_TO_CYCLES);
}

#[test]
fn item_drains_in_its_bucket() {
    // resolution 10, start 90: a deadline at 150 has advance 6
    let mut wheel: TimerWheel<u32> = TimerWheel::new(16, 10, 4, 100);
    wheel.schedule(&150, 7);
    // advance 5 at 145: not yet
    assert_eq!(wheel.tick(&145), (None, false));
    // advance 6 at 150: drained
    assert_eq!(wheel.tick(&150), (Some(vec![7]), false));
    assert_eq!(wheel.tick(&400), (None, false));
}

#[test]
fn tick_reports_more_work() {
    let mut wheel: TimerWheel<u32> = TimerWheel::new(16, 10, 4, 100);
    wheel.schedule(&110, 1);
    wheel.schedule(&130, 2);
    wheel.schedule(&131, 3);
    // at 140 (advance 5) the slots of advances 2 and 4 are due
    assert_eq!(wheel.tick(&140), (Some(vec![1]), true));
    assert_eq!(wheel.tick(&140), (Some(vec![2, 3]), true));
    assert_eq!(wheel.tick(&140), (None, false));
}

#[test]
fn earlier_time_drains_nothing() {
    let mut wheel: TimerWheel<u32> = TimerWheel::new(4, 10, 4, 100);
    wheel.schedule(&120, 1);
    assert_eq!(wheel.tick(&50), (None, false));
    assert_eq!(wheel.tick(&120), (Some(vec![1]), false));
}

#[test]
fn lapped_wheel_still_fires() {
    // 4 slots of 10 cycles; nothing ticks for many rotations
    let mut wheel: TimerWheel<u32> = TimerWheel::new(4, 10, 4, 100);
    assert_eq!(wheel.tick(&1000), (None, false));
    wheel.schedule(&1025, 9);
    let mut fired = 0;
    let mut now: u64 = 1000;
    while now < 1100 {
        now += 2;
        if let (Some(v), _) = wheel.tick(&now) {
            assert_eq!(v, vec![9]);
            fired += 1;
        }
    }
    assert_eq!(fired, 1);
}
