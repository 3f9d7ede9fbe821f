use dyd::calendar::{centered_line_offset, day_x_offset, CalendarState, Weekday};
use dyd::datetime::DateTime;

#[test]
fn picker_follows_the_threshold() {
    let since = DateTime::new(2022, 3, 25, 6, 1, 2).unwrap();
    let state = CalendarState::from_datetime(&since);
    assert_eq!((state.year, state.month, state.day), (2022, 3, 25));

    let midnight = state.to_utc_datetime();
    assert_eq!(midnight, DateTime::new(2022, 3, 25, 0, 0, 0).unwrap());
}

#[test]
fn picker_moves_across_month_ends() {
    let since = DateTime::new(2022, 3, 1, 12, 0, 0).unwrap();
    let mut state = CalendarState::from_datetime(&since);

    state.decrement(1);
    assert_eq!((state.year, state.month, state.day), (2022, 2, 28));

    state.increment(7);
    assert_eq!((state.year, state.month, state.day), (2022, 3, 7));
}

#[test]
fn centered_line_offsets() {
    assert_eq!(centered_line_offset(20, 30, 2), 7);
    assert_eq!(centered_line_offset(0, 10, 1), 6);
    assert_eq!(centered_line_offset(40, 10, 3), 3);
}

#[test]
fn day_cell_offsets() {
    assert_eq!(day_x_offset(1, Weekday::Sun), 1);
    assert_eq!(day_x_offset(10, Weekday::Sun), 0);
    assert_eq!(day_x_offset(9, Weekday::Sat), 19);
    assert_eq!(day_x_offset(23, Weekday::Wed), 9);
}
