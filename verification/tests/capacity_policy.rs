//! The instance-buffer growth policy.

use compositor::capacity::grow_capacity;

#[test]
fn fitting_data_keeps_the_buffer() {
    assert_eq!(grow_capacity(0, 0), None);
    assert_eq!(grow_capacity(5, 8), None);
    assert_eq!(grow_capacity(8, 8), None);
}

#[test]
fn growth_picks_the_smallest_sufficient_power_of_two() {
    assert_eq!(grow_capacity(1, 0), Some(1));
    assert_eq!(grow_capacity(2, 1), Some(2));
    assert_eq!(grow_capacity(3, 2), Some(4));
    assert_eq!(grow_capacity(9, 8), Some(16));
    assert_eq!(grow_capacity(1024, 512), Some(1024));
    assert_eq!(grow_capacity(1025, 1024), Some(2048));
}
