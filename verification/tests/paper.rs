use evacuation::paper::{get_x, get_y};

#[test]
fn the_first_cell_lies_at_the_top_left() {
    // cells of 20 pixels on a board of 1000 by 800 pixels
    assert_eq!(get_x(20_000_000, 0, 1_000_000_000), -490_000_000);
    assert_eq!(get_y(20_000_000, 0, 800_000_000), 390_000_000);
}

#[test]
fn columns_go_right_and_rows_go_down() {
    assert_eq!(get_x(20_000_000, 3, 1_000_000_000), -430_000_000);
    assert_eq!(get_y(20_000_000, 3, 800_000_000), 330_000_000);
    assert_eq!(get_x(20_000_000, 49, 1_000_000_000), 490_000_000);
    assert_eq!(get_y(20_000_000, 39, 800_000_000), -390_000_000);
}

#[test]
fn halves_are_rounded_down() {
    assert_eq!(get_x(3, 0, 5), 1 - 2);
    assert_eq!(get_x(3, 2, 5), 1 + 6 - 2);
    assert_eq!(get_y(3, 0, 5), -1 + 2);
    assert_eq!(get_y(3, 2, 5), -1 - 6 + 2);
}

#[test]
fn places_stop_at_what_can_be_held() {
    assert_eq!(get_x(u64::MAX, usize::MAX, 0), i64::MAX);
    assert_eq!(get_y(u64::MAX, usize::MAX, 0), i64::MIN);
    assert_eq!(get_x(0, 0, u64::MAX), -(i64::MAX));
    assert_eq!(get_y(0, 0, u64::MAX), i64::MAX);
}
