use tribalwars::coords::{first_coordinates, parse_pair, read_coordinates, village_option_value, Coordinates};
use tribalwars::messages::{message_action, report_links, MessageAction};

#[test]
fn coordinates_in_messages() {
    let found = |x: u32, y: u32| Coordinates::Found { x, y };
    assert_eq!(first_coordinates("attack 500|501 tonight"), found(500, 501));
    assert_eq!(first_coordinates("500|501 and 400|401"), found(500, 501));
    assert_eq!(first_coordinates("1234|5678"), found(234, 567));
    assert_eq!(first_coordinates("050|007"), found(50, 7));
    assert_eq!(first_coordinates("50|500"), Coordinates::Absent);
    assert_eq!(first_coordinates("500 | 500"), Coordinates::Absent);
    assert_eq!(first_coordinates(""), Coordinates::Absent);
    assert_eq!(first_coordinates("x12|345|678"), found(345, 678));
}

#[test]
fn coordinates_in_other_scripts_are_unreadable() {
    assert_eq!(first_coordinates("\u{663}\u{663}\u{663}|123"), Coordinates::Unreadable);
    assert_eq!(first_coordinates("\u{663}\u{663}\u{663}|123 then 500|500"), Coordinates::Unreadable);
    assert!(matches!(message_action(false, "\u{966}\u{967}\u{968}|111"), MessageAction::UnreadableCoordinates));
}

#[test]
fn captured_groups_read_as_numbers() {
    assert_eq!(read_coordinates(None), Coordinates::Absent);
    assert_eq!(read_coordinates(Some(("500".to_string(), "042".to_string()))), Coordinates::Found { x: 500, y: 42 });
    assert_eq!(read_coordinates(Some(("5x0".to_string(), "042".to_string()))), Coordinates::Unreadable);
}

#[test]
fn coordinates_written_are_found() {
    for (x, y) in [(100u32, 999u32), (500, 500), (987, 123)] {
        let text = format!("{}|{}", x, y);
        assert_eq!(first_coordinates(&text), Coordinates::Found { x, y });
    }
}

#[test]
fn pairs_around_a_separator() {
    assert_eq!(parse_pair("500|400", '|'), Some((500, 400)));
    assert_eq!(parse_pair("1.2.3", '.'), Some((1, 2)));
    assert_eq!(parse_pair("+7.08", '.'), Some((7, 8)));
    assert_eq!(parse_pair("12", '|'), None);
    assert_eq!(parse_pair("a|1", '|'), None);
    assert_eq!(parse_pair("1|", '|'), None);
}

#[test]
fn option_values_read_back() {
    assert_eq!(village_option_value(500, 42), "500.42");
    for (x, y) in [(0u32, 0u32), (500, 42), (u32::MAX, 1)] {
        assert_eq!(parse_pair(&village_option_value(x, y), '.'), Some((x, y)));
    }
}

#[test]
fn report_links_in_messages() {
    let msg = "look https://en125.tribalwars.net/public_report/abc and  <https://en125.tribalwars.net/public_report/def>";
    assert_eq!(
        report_links(msg),
        vec![
            "https://en125.tribalwars.net/public_report/abc".to_string(),
            "<https://en125.tribalwars.net/public_report/def>".to_string()
        ]
    );
    assert!(report_links("https://en125.tribalwars.net/game.php").is_empty());
    assert!(report_links("").is_empty());
}

#[test]
fn message_actions() {
    assert!(matches!(message_action(true, "500|500"), MessageAction::Ignore));
    assert!(matches!(message_action(false, "go 500|501"), MessageAction::ShowVillage { x: 500, y: 501 }));
    match message_action(false, "https://en125.tribalwars.net/public_report/x 500") {
        MessageAction::SendReports { links } => {
            assert_eq!(links, vec!["https://en125.tribalwars.net/public_report/x".to_string()])
        }
        _ => panic!("expected reports"),
    }
    match message_action(false, "hello") {
        MessageAction::SendReports { links } => assert!(links.is_empty()),
        _ => panic!("expected no reports"),
    }
}
