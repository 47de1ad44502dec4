use robot_reboot::schedule::{delay_until, JsonNextConfigTime};

#[test]
fn waits_until_next_challenge() {
    let t = JsonNextConfigTime("2019-08-20T20:00:00.000Z".to_string());
    assert_eq!(t.wait_duration(1566331100, 0), Some((100, 0)));
    assert_eq!(t.wait_duration(1566331100, 500_000_000), Some((99, 500_000_000)));
    assert_eq!(t.wait_duration(1566331200, 0), Some((0, 0)));
}

#[test]
fn next_challenge_in_the_past() {
    let t = JsonNextConfigTime("2019-08-20T20:00:00.000Z".to_string());
    assert_eq!(t.wait_duration(1566331200, 1), None);
    assert_eq!(t.wait_duration(1700000000, 0), None);
}

#[test]
fn unreadable_time() {
    let t = JsonNextConfigTime("tomorrow".to_string());
    assert_eq!(t.wait_duration(0, 0), None);
}

#[test]
fn time_with_offset() {
    let t = JsonNextConfigTime("2019-08-20T22:00:00.250+02:00".to_string());
    assert_eq!(t.wait_duration(1566331000, 0), Some((200, 250_000_000)));
}

#[test]
fn delays() {
    assert_eq!(delay_until((10, 0), (10, 0)), Some((0, 0)));
    assert_eq!(delay_until((10, 0), (9, 999_999_999)), Some((0, 1)));
    assert_eq!(delay_until((12, 5), (10, 7)), Some((1, 999_999_998)));
    assert_eq!(delay_until((9, 0), (10, 0)), None);
    assert_eq!(delay_until((-5, 0), (-7, 500)), Some((1, 999_999_500)));
}
