use bronze_kernel::time::{sleep, TimeManager, TICK_HZ};

#[test]
fn new_clock_reads_zero() {
    let tm = TimeManager::new(7);
    assert_eq!(tm.current_tick(), 0);
    assert_eq!(tm.get_uptime_ms(), 0);
}

#[test]
fn ticks_count_up_by_ten_ms() {
    let mut tm = TimeManager::new(0);
    tm.register_tick();
    tm.register_tick();
    tm.register_tick();
    assert_eq!(tm.current_tick(), 3);
    assert_eq!(tm.get_uptime_ms(), 30);
}

#[test]
fn conversions() {
    let tm = TimeManager::new(0);
    assert_eq!(TICK_HZ, 100);
    assert_eq!(tm.ms_to_ticks(1234), 123);
    assert_eq!(tm.ms_to_ticks(9), 0);
    assert_eq!(tm.ticks_to_ms(7), 70);
    assert_eq!(tm.time_between_ticks_ms(5, 12), 70);
    // round trip of whole ticks
    assert_eq!(tm.ms_to_ticks(tm.ticks_to_ms(42)), 42);
}

#[test]
fn sleep_ends_after_its_ticks() {
    let mut tm = TimeManager::new(0);
    for _ in 0..5 {
        tm.register_tick();
    }
    let s = sleep(&tm, 250);
    // ends once the count passes 5 + 25
    assert!(!s.is_over(30));
    assert!(s.is_over(31));
    assert!(tm.ticks_to_ms(31 - 5) > 250);
}

#[test]
fn sleep_on_a_fresh_clock() {
    let tm = TimeManager::new(0);
    let s = sleep(&tm, 1000);
    assert!(!s.is_over(100));
    assert!(s.is_over(101));
}
