use std::cmp::Ordering;

use camrete::version::{num_cmp, str_cmp, ModuleVersion};
use camrete::text::take_prefix;

#[test]
fn different_epoch() {
    let v1 = ModuleVersion::from("1:alpha");
    let v2 = ModuleVersion::from("banana");
    assert!(v1 > v2);

    let v1 = ModuleVersion::from("0:alpha");
    let v2 = ModuleVersion::from("banana");
    assert!(v1 < v2);

    let v1 = ModuleVersion::from("3:alpha");
    let v2 = ModuleVersion::from("2:banana");
    assert!(v1 > v2);
}

#[test]
fn alpha() {
    let v1 = ModuleVersion::from("alpha");
    let v2 = ModuleVersion::from("banana");

    assert!(v1 < v2);
}

#[test]
fn basic() {
    let v0 = ModuleVersion::from("1.2.0");
    let v1 = ModuleVersion::from("1.2.0");
    let v2 = ModuleVersion::from("1.2.2");

    assert_eq!(v0, v1);
    assert!(v1 < v2);
    assert!(v2 > v1);
}

#[test]
fn logical_equality() {
    let v1 = ModuleVersion::from("1.1");
    let v2 = ModuleVersion::from("1.01");

    assert_eq!(v1, v2);
}

#[test]
fn dot_has_sort_priority() {
    let v1 = ModuleVersion::from("1.0-beta");
    let v2 = ModuleVersion::from("1.0.1-beta");

    assert!(v2 > v1);

    let v1 = ModuleVersion::from("1.0_beta");
    let v2 = ModuleVersion::from("1.0.1_beta");

    assert!(v2 > v1);
}

#[test]
fn dot_for_extra_data() {
    let v1 = ModuleVersion::from("1.0");
    let v2 = ModuleVersion::from("1.0.repackaged");
    let v3 = ModuleVersion::from("1.0.1");

    assert!(v1 < v2);
    assert!(v2 < v3);
    assert!(v2 > v1);
    assert!(v3 > v2);
}

#[test]
fn subversion_over_metadata() {
    let v1 = ModuleVersion::from("1.4");
    let v2 = ModuleVersion::from("1.beta");
    assert!(v1 > v2);
}

#[test]
fn dot_segments_compare_lexicographically() {
    let v1 = ModuleVersion::from("1.alpha");
    let v2 = ModuleVersion::from("1.beta");
    assert!(v1 < v2);
}

#[test]
fn uneven_versioning() {
    let v1 = ModuleVersion::from("1.1.0.0");
    let v2 = ModuleVersion::from("1.1.1");
    assert!(v1 < v2);
    assert!(v2 > v1);
}

#[test]
fn complex() {
    let v1 = ModuleVersion::from("v6a12");
    let v2 = ModuleVersion::from("v6a5");
    assert!(v1 > v2);
    assert!(v2 < v1);
}

#[test]
fn take_prefix_letters() {
    let mut string = "abc123";
    let prefix = take_prefix(&mut string, |c| c.is_alphabetic());

    assert_eq!(prefix, "abc");
    assert_eq!(string, "123");
}

#[test]
fn take_prefix_empty() {
    let mut string = "456";
    let prefix = take_prefix(&mut string, |c| c.is_alphabetic());

    assert_eq!(prefix, "");
    assert_eq!(string, "456");
}

#[test]
fn take_prefix_all() {
    let mut string = "hello";
    let prefix = take_prefix(&mut string, |c| c.is_alphabetic());

    assert_eq!(prefix, "hello");
    assert_eq!(string, "");
}

#[test]
fn str_cmp_simple() {
    let mut left = "alpha123";
    let mut right = "beta123";

    let cmp = str_cmp(&mut left, &mut right);

    assert_eq!(cmp, Ordering::Less);
    assert_eq!(left, "123");
    assert_eq!(right, "123");
}

#[test]
fn str_cmp_different_suffix() {
    let mut left = "zeta5";
    let mut right = "ernest10";

    let cmp = str_cmp(&mut left, &mut right);

    assert_eq!(cmp, Ordering::Greater);
    assert_eq!(left, "5");
    assert_eq!(right, "10");
}

#[test]
fn str_cmp_same_prefix() {
    let mut left = "kappa9";
    let mut right = "kappa15";

    let cmp = str_cmp(&mut left, &mut right);

    assert_eq!(cmp, Ordering::Equal);
    assert_eq!(left, "9");
    assert_eq!(right, "15");
}

#[test]
fn str_cmp_no_prefix() {
    let mut left = "9kip";
    let mut right = "15omega";

    let cmp = str_cmp(&mut left, &mut right);

    assert_eq!(cmp, Ordering::Equal);
    assert_eq!(left, "9kip");
    assert_eq!(right, "15omega");
}

#[test]
fn num_cmp_simple() {
    let mut left = "123alpha";
    let mut right = "124alpha";

    let cmp = num_cmp(&mut left, &mut right);

    assert_eq!(cmp, Ordering::Less);
    assert_eq!(left, "alpha");
    assert_eq!(right, "alpha");
}

#[test]
fn num_cmp_different_suffix() {
    let mut left = "10zeta";
    let mut right = "5ernest";

    let cmp = num_cmp(&mut left, &mut right);

    assert_eq!(cmp, Ordering::Greater);
    assert_eq!(left, "zeta");
    assert_eq!(right, "ernest");
}

#[test]
fn num_cmp_same_prefix() {
    let mut left = "9kappa";
    let mut right = "9ernest";

    let cmp = num_cmp(&mut left, &mut right);

    assert_eq!(cmp, Ordering::Equal);
    assert_eq!(left, "kappa");
    assert_eq!(right, "ernest");
}

#[test]
fn num_cmp_no_prefix() {
    let mut left = "kip";
    let mut right = "omega15";

    let cmp = num_cmp(&mut left, &mut right);

    assert_eq!(cmp, Ordering::Equal);
    assert_eq!(left, "kip");
    assert_eq!(right, "omega15");
}

#[test]
fn epoch_is_read_before_the_first_colon() {
    let v = ModuleVersion::from("2:1.0:b");
    assert_eq!(v.epoch(), Some(2));
    assert_eq!(v.mod_version(), "1.0:b");
    assert_eq!(v.as_str(), "2:1.0:b");

    let v = ModuleVersion::from("x:1.0");
    assert_eq!(v.epoch(), None);
    assert_eq!(v.mod_version(), "x:1.0");

    let v = ModuleVersion::from("99999999999:1");
    assert_eq!(v.epoch(), None);
    assert_eq!(v.into_inner(), "99999999999:1");
}

#[test]
fn missing_epoch_is_zero() {
    assert_eq!(ModuleVersion::from("0:1.0"), ModuleVersion::from("1.0"));
}

#[test]
fn numbers_compare_by_value() {
    assert!(ModuleVersion::from("1.10") > ModuleVersion::from("1.2"));
    assert!(ModuleVersion::from("1.123456789012345678901") > ModuleVersion::from("1.99999999999999999999"));
    assert_eq!(ModuleVersion::from("a"), ModuleVersion::from("a0"));
    assert!(ModuleVersion::from("") < ModuleVersion::from("0"));
}

#[test]
fn bare_dot_outranks_dot_text() {
    assert!(ModuleVersion::from("1.10") > ModuleVersion::from("1.beta"));
    assert_eq!(
        ModuleVersion::from("1.").cmp(&ModuleVersion::from("1.x")),
        Ordering::Greater
    );
}

#[test]
fn order_is_transitive_on_a_chain() {
    let mut versions: Vec<ModuleVersion> = ["1:0", "1.0.1", "1.0", "0.9", "1.0.repackaged", "1.0.1-beta", "banana"]
        .iter()
        .map(|s| ModuleVersion::from(*s))
        .collect();
    versions.sort_by(|a, b| a.cmp(b));
    let texts: Vec<&str> = versions.iter().map(|v| v.as_str()).collect();
    assert_eq!(
        texts,
        vec!["0.9", "1.0", "1.0.repackaged", "1.0.1", "1.0.1-beta", "banana", "1:0"]
    );
    for a in &versions {
        for b in &versions {
            for c in &versions {
                if a <= b && b <= c {
                    assert!(a <= c);
                }
            }
            assert_eq!(a.cmp(b), b.cmp(a).reverse());
        }
    }
}

#[test]
fn equal_versions_share_hash_key() {
    let a = ModuleVersion::from("1.01");
    let b = ModuleVersion::from("0:1.1");
    assert_eq!(a, b);
    assert_eq!(a.hash_key(), b.hash_key());
    assert_eq!(a.hash_key(), (0, "1.1".to_string()));
    assert_eq!(ModuleVersion::from("3:v06a").hash_key(), (3, "v6a0".to_string()));
    assert_ne!(
        ModuleVersion::from("1.0").hash_key(),
        ModuleVersion::from("1.0.0").hash_key()
    );
}
