use skills::registry::{Install, Method, Registry, TargetRec};
use skills::tags::set_tags;

fn reg() -> Registry {
    let mut r = Registry::empty();
    for (skill, name) in [("a", "agents"), ("a", "codex"), ("b", "agents")] {
        r.installs.push(Install {
            skill: skill.into(),
            source: "github/o/r".into(),
            source_path: format!("skills/{skill}"),
            target: TargetRec::Global { name: name.into() },
            method: Method::Copy,
            commit: "c1".into(),
            tags: vec![],
            auto_update: None,
            installed_at: "t".into(),
        });
    }
    r
}

#[test]
fn set_tags_on_one_install_only() {
    let mut r = reg();
    let t = TargetRec::Global {
        name: "agents".into(),
    };
    set_tags(&mut r, "a", &t, vec!["frontend".into(), "ui".into()]).unwrap();
    assert_eq!(r.find("a", &t).unwrap().tags, vec!["frontend", "ui"]);
    let other = TargetRec::Global {
        name: "codex".into(),
    };
    assert!(r.find("a", &other).unwrap().tags.is_empty());
}

#[test]
fn filter_by_tag() {
    let mut r = reg();
    set_tags(
        &mut r,
        "a",
        &TargetRec::Global {
            name: "agents".into(),
        },
        vec!["frontend".into()],
    )
    .unwrap();
    set_tags(
        &mut r,
        "b",
        &TargetRec::Global {
            name: "agents".into(),
        },
        vec!["backend".into()],
    )
    .unwrap();
    let hits = skills::tags::filter_by_tag(&r, "frontend");
    assert_eq!(hits.len(), 1);
    assert_eq!(hits[0].skill, "a");
    assert!(skills::tags::filter_by_tag(&r, "不存在").is_empty());
}

#[test]
fn set_tags_on_missing_install_errors() {
    let mut r = reg();
    let t = TargetRec::Global {
        name: "agents".into(),
    };
    assert!(set_tags(&mut r, "nope", &t, vec!["x".into()]).is_err());
}

#[test]
fn set_tags_finds_a_project_root_spelled_otherwise() {
    let mut r = Registry::empty();
    r.installs.push(Install {
        skill: "alpha".into(),
        source: "github/o/r".into(),
        source_path: "skills/alpha".into(),
        target: TargetRec::Project { root: "/x".into() },
        method: Method::Copy,
        commit: "c1".into(),
        tags: vec![],
        auto_update: None,
        installed_at: "t".into(),
    });
    let t = TargetRec::Project { root: "/x/".into() };
    set_tags(&mut r, "alpha", &t, vec!["ui".into()]).unwrap();
    assert_eq!(r.installs[0].tags, vec!["ui"]);
}
