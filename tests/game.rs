use camrete::game::{GameVersion, GameVersionParseError};

#[test]
fn game_parse_any() {
    let v1 = GameVersion::from_str("any").unwrap();
    assert!(v1.is_empty());
}

#[test]
fn game_not_parse_word() {
    let v1 = GameVersion::from_str("any version");
    assert!(matches!(v1, Err(GameVersionParseError::NotInteger(_))));

    let v2 = GameVersion::from_str("foobar");
    assert!(matches!(v2, Err(GameVersionParseError::NotInteger(_))));
}

#[test]
fn game_parse_major_only() {
    let v1 = GameVersion::from_str("5").unwrap();
    assert_eq!(v1.major(), Some(5));
    assert_eq!(v1.minor(), None);
    assert_eq!(v1.patch(), None);
}

#[test]
fn game_parse_major_minor() {
    let v1 = GameVersion::from_str("1.8").unwrap();
    assert_eq!(v1.major(), Some(1));
    assert_eq!(v1.minor(), Some(8));
    assert_eq!(v1.patch(), None);
}

#[test]
fn game_parse_std() {
    let v1 = GameVersion::from_str("3.14.15").unwrap();
    assert_eq!(v1.major(), Some(3));
    assert_eq!(v1.minor(), Some(14));
    assert_eq!(v1.patch(), Some(15));
}

#[test]
fn game_parse_build() {
    let v1 = GameVersion::from_str("0.0.0.15").unwrap();
    assert_eq!(v1.major(), Some(0));
    assert_eq!(v1.minor(), Some(0));
    assert_eq!(v1.patch(), Some(0));
    assert_eq!(v1.build(), Some(15));
}

#[test]
fn game_not_parse_too_many() {
    let v1 = GameVersion::from_str("1.2.3.4.5");
    assert_eq!(v1, Err(GameVersionParseError::TooManyParts));
}

#[test]
fn game_not_parse_letters() {
    let v1 = GameVersion::from_str("1.2.3b");
    assert!(matches!(v1, Err(GameVersionParseError::NotInteger(_))));
}

#[test]
fn game_parse_trims_and_reports_the_bad_part() {
    let v = GameVersion::from_str(" 1 . 2 ").unwrap();
    assert_eq!(v, GameVersion::new(Some(1), Some(2), None, None));
    assert_eq!(
        GameVersion::from_str("1..3"),
        Err(GameVersionParseError::NotInteger(String::new()))
    );
    assert_eq!(
        GameVersion::from_str("1.x.3.4.5"),
        Err(GameVersionParseError::NotInteger("x".to_string()))
    );
    assert_eq!(
        GameVersion::from_str("4294967296"),
        Err(GameVersionParseError::NotInteger("4294967296".to_string()))
    );
    assert_eq!(
        GameVersion::from_str("+7").unwrap().major(),
        Some(7)
    );
}

#[test]
fn game_versions_order_with_absent_parts_first() {
    let a = GameVersion::new(Some(1), None, None, None);
    let b = GameVersion::new(Some(1), Some(0), None, None);
    let c = GameVersion::new(Some(1), Some(2), None, None);
    let d = GameVersion::new(Some(1), Some(2), None, Some(1));
    assert!(a < b && b < c && c < d);
    assert!(GameVersion::empty() < a);
    assert_eq!(GameVersion::default(), GameVersion::empty());
    assert!(!a.is_empty());
}
