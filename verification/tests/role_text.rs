use botbot::answers::{bar_role, role_argument, role_on, ClockReading};

#[test]
fn role_for_a_user() {
    let clock = ClockReading::new(2024, 3, 5, 9, 7).unwrap();
    assert_eq!(
        role_argument(&"mifa".to_string(), &clock, &"Alice".to_string()),
        "mifa:09h07:2024-03-05:Tue:Alice"
    );
}

#[test]
fn role_on_a_given_weekday() {
    let clock = ClockReading::new(2024, 3, 5, 9, 7).unwrap();
    assert_eq!(
        role_on(&"sql".to_string(), &clock, &"Xyz".to_string(), &"Bob".to_string()),
        "sql:09h07:2024-03-05:Xyz:Bob"
    );
}

#[test]
fn weekdays_come_from_the_calendar() {
    let name = "n".to_string();
    let role = "r".to_string();
    let sunday = ClockReading::new(2023, 12, 31, 23, 59).unwrap();
    assert_eq!(role_argument(&role, &sunday, &name), "r:23h59:2023-12-31:Sun:n");
    let leap = ClockReading::new(2024, 2, 29, 0, 0).unwrap();
    assert_eq!(role_argument(&role, &leap, &name), "r:00h00:2024-02-29:Thu:n");
    let first = ClockReading::new(2000, 1, 1, 12, 30).unwrap();
    assert_eq!(role_argument(&role, &first, &name), "r:12h30:2000-01-01:Sat:n");
}

#[test]
fn role_for_the_bot() {
    let clock = ClockReading::new(2023, 12, 31, 23, 59).unwrap();
    assert_eq!(bar_role(&clock), "bar:23h59:2023-12-31");
}

#[test]
fn years_outside_four_digits() {
    let far = ClockReading::new(12345, 1, 2, 0, 0).unwrap();
    assert_eq!(bar_role(&far), "bar:00h00:+12345-01-02");
    let early = ClockReading::new(987, 1, 2, 0, 0).unwrap();
    assert_eq!(bar_role(&early), "bar:00h00:0987-01-02");
    let before = ClockReading::new(-5, 1, 2, 0, 0).unwrap();
    assert_eq!(bar_role(&before), "bar:00h00:-0005-01-02");
}

#[test]
fn clock_fields_are_checked() {
    assert!(ClockReading::new(2024, 13, 1, 0, 0).is_none());
    assert!(ClockReading::new(2024, 1, 1, 24, 0).is_none());
    assert!(ClockReading::new(2024, 1, 1, 0, 60).is_none());
    assert!(ClockReading::new(2024, 1, 0, 0, 0).is_none());
    assert!(ClockReading::new(2024, 4, 31, 0, 0).is_none());
    assert!(ClockReading::new(2023, 2, 29, 0, 0).is_none());
    assert!(ClockReading::new(1900, 2, 29, 0, 0).is_none());
    assert!(ClockReading::new(2000, 2, 29, 0, 0).is_some());
    assert!(ClockReading::new(-4, 2, 29, 0, 0).is_some());
    assert!(ClockReading::new(262142, 12, 31, 0, 0).is_some());
    assert!(ClockReading::new(262143, 1, 1, 0, 0).is_none());
    assert!(ClockReading::new(-262143, 1, 1, 0, 0).is_some());
    assert!(ClockReading::new(-262144, 1, 1, 0, 0).is_none());
}

#[test]
fn weekdays_at_the_edges_of_the_calendar() {
    let name = "n".to_string();
    let role = "r".to_string();
    let first = ClockReading::new(1, 1, 1, 0, 0).unwrap();
    assert_eq!(role_argument(&role, &first, &name), "r:00h00:0001-01-01:Mon:n");
    let bce = ClockReading::new(-4, 2, 29, 0, 0).unwrap();
    assert_eq!(role_argument(&role, &bce, &name), "r:00h00:-0004-02-29:Thu:n");
    let year_zero = ClockReading::new(0, 12, 31, 0, 0).unwrap();
    assert_eq!(role_argument(&role, &year_zero, &name), "r:00h00:0000-12-31:Sun:n");
}

#[test]
fn the_new_year_follows_on_the_next_weekday() {
    let name = "n".to_string();
    let role = "r".to_string();
    let eve = ClockReading::new(2023, 12, 31, 0, 0).unwrap();
    let day = ClockReading::new(2024, 1, 1, 0, 0).unwrap();
    assert!(role_argument(&role, &eve, &name).contains(":Sun:"));
    assert!(role_argument(&role, &day, &name).contains(":Mon:"));
    let before = ClockReading::new(2024, 2, 28, 0, 0).unwrap();
    let leap = ClockReading::new(2024, 2, 29, 0, 0).unwrap();
    assert!(role_argument(&role, &before, &name).contains(":Wed:"));
    assert!(role_argument(&role, &leap, &name).contains(":Thu:"));
}
