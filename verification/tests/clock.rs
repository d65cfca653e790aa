use golden_core::clock::Clock;

#[test]
fn clock_counts_down_and_resets() {
    let mut clock = Clock::new(1000);
    assert_eq!(clock.remaining_ms(), 1000);
    clock.substract(400);
    assert_eq!(clock.remaining_ms(), 600);
    clock.substract(700);
    assert_eq!(clock.remaining_ms(), 0);
    clock.reset();
    assert_eq!(clock.remaining_ms(), 1000);
}
