use skills::install::{check_source_rel_path, install_record_at, to_rec, validate_skill_name};
use skills::paths::Target;
use skills::registry::{Method, TargetRec};
use skills::error::Error;

#[test]
fn rejects_skill_names_that_are_not_one_normal_component() {
    for skill in ["", ".", "..", "nested/alpha", r"nested\alpha", "/tmp/escaped"] {
        let err = validate_skill_name(skill).unwrap_err();
        assert!(matches!(err, Error::InvalidSkillName(_)), "{skill}");
    }
    assert!(validate_skill_name("alpha").is_ok());
}

#[test]
fn source_paths_must_stay_relative() {
    assert!(check_source_rel_path("skills/alpha").is_ok());
    assert!(check_source_rel_path(".").is_ok());
    assert!(matches!(check_source_rel_path("/abs"), Err(Error::InvalidSourcePath(_))));
    assert!(matches!(check_source_rel_path("a/../../b"), Err(Error::InvalidSourcePath(_))));
}

#[test]
fn fresh_record_carries_what_was_installed() {
    let t = Target::Project { root: "/w".into() };
    let rec = install_record_at("github/o/r", "alpha", "skills/alpha", &t, Method::Copy, "c1", "now");
    assert_eq!(rec.skill, "alpha");
    assert_eq!(rec.target, TargetRec::Project { root: "/w".into() });
    assert_eq!(rec.method, Method::Copy);
    assert!(rec.tags.is_empty());
    assert_eq!(rec.auto_update, None);
    assert_eq!(rec.installed_at, "now");
    assert_eq!(to_rec(&t), TargetRec::Project { root: "/w".into() });
}
