use camrete::game::GameVersion;
use camrete::game_spec::{GameVersionSpec, MetaGameVersion};
use camrete::one_or_many::{into_items, to_written, OneOrMany};
use camrete::spec_version::{SpecVersion, SpecVersionValue};

#[test]
fn game_version_de_any() {
    let val = GameVersionSpec::Any;
    assert_eq!(GameVersionSpec::from_value(Some("any")), Some(val));

    let meta = MetaGameVersion(GameVersion::default());
    assert_eq!(MetaGameVersion::from_value(Some("any")), Ok(meta));
}

#[test]
fn game_version_ser_de_major_only() {
    let val = GameVersionSpec::Named { major: 1, minor: None, patch: None };
    assert_eq!(val.to_value(), Some("1".to_string()));
    assert_eq!(GameVersionSpec::from_value(Some("1")), Some(val));

    let meta = MetaGameVersion(GameVersion::new(Some(1), None, None, None));
    assert_eq!(meta.to_value(), Some("1".to_string()));
    assert_eq!(MetaGameVersion::from_value(Some("1")), Ok(meta));
}

#[test]
fn game_version_ser_de_major_minor() {
    let val = GameVersionSpec::Named { major: 1, minor: Some(2), patch: None };
    assert_eq!(val.to_value(), Some("1.2".to_string()));
    assert_eq!(GameVersionSpec::from_value(Some("1.2")), Some(val));

    let meta = MetaGameVersion(GameVersion::new(Some(1), Some(2), None, None));
    assert_eq!(meta.to_value(), Some("1.2".to_string()));
    assert_eq!(MetaGameVersion::from_value(Some("1.2")), Ok(meta));
}

#[test]
fn game_version_ser_de_major_minor_patch() {
    let val = GameVersionSpec::Named { major: 1, minor: Some(2), patch: Some(3) };
    assert_eq!(val.to_value(), Some("1.2.3".to_string()));
    assert_eq!(GameVersionSpec::from_value(Some("1.2.3")), Some(val));

    let meta = MetaGameVersion(GameVersion::new(Some(1), Some(2), Some(3), None));
    assert_eq!(meta.to_value(), Some("1.2.3".to_string()));
    assert_eq!(MetaGameVersion::from_value(Some("1.2.3")), Ok(meta));
}

#[test]
fn game_version_ser_de_none() {
    let val = GameVersionSpec::Any;
    assert_eq!(val.to_value(), None);
    assert_eq!(GameVersionSpec::from_value(None), Some(val));

    let meta = MetaGameVersion(GameVersion::default());
    assert_eq!(meta.to_value(), None);
    assert_eq!(MetaGameVersion::from_value(None), Ok(meta));
}

#[test]
fn game_version_spec_edge_cases() {
    assert_eq!(GameVersionSpec::from_value(Some("1.x")), None);
    assert_eq!(GameVersionSpec::from_value(Some("70000")), None);
    assert_eq!(GameVersionSpec::from_value(Some("1.2.3.4")), None);
    assert_eq!(GameVersionSpec::from_value(Some("1.2.3.x")), None);
    assert_eq!(GameVersionSpec::from_value(Some("1.2.")), None);
    let named = GameVersionSpec::Named { major: 12, minor: Some(0), patch: None };
    assert_eq!(named.major(), Some(12));
    assert_eq!(named.minor(), Some(0));
    assert_eq!(named.patch(), None);
    assert!(!named.is_any());
    assert_eq!(
        named.to_game_version(),
        GameVersion::new(Some(12), Some(0), None, None)
    );
    assert!(GameVersionSpec::Any.to_game_version().is_empty());
    assert_eq!(
        MetaGameVersion(GameVersion::new(Some(1), Some(2), Some(3), Some(4))).to_value(),
        Some("1.2.3.4".to_string())
    );
}

#[test]
fn ser_de_v1_special_case() {
    let v1 = SpecVersion { major: 1, minor: 0 };
    assert_eq!(v1.to_value(), SpecVersionValue::Integer(1));
    assert_eq!(SpecVersion::from_value(&SpecVersionValue::Integer(1)), Some(v1));
}

#[test]
fn ser_de_v1_minor() {
    let v1 = SpecVersion { major: 1, minor: 1 };
    assert_eq!(v1.to_value(), SpecVersionValue::Text("v1.1".to_string()));
    assert_eq!(SpecVersion::from_value(&SpecVersionValue::Text("v1.1".to_string())), Some(v1));
}

#[test]
fn spec_version_ser_de_major_only() {
    let v1 = SpecVersion { major: 2, minor: 0 };
    assert_eq!(v1.to_value(), SpecVersionValue::Text("v2.0".to_string()));
    assert_eq!(SpecVersion::from_value(&SpecVersionValue::Text("v2.0".to_string())), Some(v1));
}

#[test]
fn spec_version_ser_de_major_minor() {
    let v1 = SpecVersion { major: 5, minor: 12 };
    assert_eq!(v1.to_value(), SpecVersionValue::Text("v5.12".to_string()));
    assert_eq!(SpecVersion::from_value(&SpecVersionValue::Text("v5.12".to_string())), Some(v1));
}

#[test]
fn spec_version_refusals() {
    assert_eq!(SpecVersion::from_value(&SpecVersionValue::Integer(2)), None);
    assert_eq!(SpecVersion::from_value(&SpecVersionValue::Text("1.2".to_string())), None);
    assert_eq!(SpecVersion::from_value(&SpecVersionValue::Text("v1".to_string())), None);
    assert_eq!(SpecVersion::from_value(&SpecVersionValue::Text("v1.2.3".to_string())), None);
    assert_eq!(
        SpecVersion::from_value(&SpecVersionValue::Text("v1.0".to_string())),
        Some(SpecVersion { major: 1, minor: 0 })
    );
}

#[test]
fn one_or_many_ser_de_none() {
    let value: Vec<String> = Vec::new();
    assert_eq!(to_written(value.clone()), OneOrMany::Null);
    assert_eq!(into_items(OneOrMany::<String>::Null), value);
}

#[test]
fn ser_de_single() {
    let value = vec!["hi".to_string()];
    assert_eq!(to_written(value.clone()), OneOrMany::One("hi".to_string()));
    assert_eq!(into_items(OneOrMany::One("hi".to_string())), value);
}

#[test]
fn ser_de_many() {
    let value = vec!["hi".to_string(), "there".to_string()];
    assert_eq!(to_written(value.clone()), OneOrMany::Many(value.clone()));
    assert_eq!(into_items(OneOrMany::Many(value.clone())), value);
}

#[test]
fn one_or_many_lists_of_one_normalize() {
    let read = into_items(OneOrMany::Many(vec![7u32]));
    assert_eq!(to_written(read), OneOrMany::One(7));
    let read = into_items(OneOrMany::<u32>::Many(vec![]));
    assert_eq!(to_written(read), OneOrMany::Null);
}
