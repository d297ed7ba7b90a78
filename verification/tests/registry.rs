use skills::paths::Target;
use skills::registry::{Install, Method, Registry, TargetRec};

fn sample_install() -> Install {
    Install {
        skill: "web-design".into(),
        source: "github/mattpocock/skills".into(),
        source_path: "skills/web-design".into(),
        target: TargetRec::Global {
            name: "agents".into(),
        },
        method: Method::Copy,
        commit: "a1b2c3d".into(),
        tags: vec!["frontend".into()],
        auto_update: None,
        installed_at: "2026-08-20T10:00:00Z".into(),
    }
}

#[test]
fn find_and_remove_by_skill_and_target() {
    let mut reg = Registry::empty();
    reg.installs.push(sample_install());
    let t = TargetRec::Global {
        name: "agents".into(),
    };
    assert!(reg.find("web-design", &t).is_some());
    assert!(reg
        .find(
            "web-design",
            &TargetRec::Global {
                name: "codex".into()
            }
        )
        .is_none());
    let removed = reg.remove("web-design", &t);
    assert!(removed.is_some());
    assert!(reg.installs.is_empty());
}

#[test]
fn target_rec_to_target_maps_both_kinds() {
    assert_eq!(
        TargetRec::Global {
            name: "agents".into()
        }
        .to_target(),
        Target::Global {
            name: "agents".into()
        }
    );
    assert_eq!(
        TargetRec::Project {
            root: "/x".to_string()
        }
        .to_target(),
        Target::Project {
            root: "/x".to_string()
        }
    );
}

#[test]
fn keyed_tables_read_back_what_was_written() {
    let mut m: skills::strmap::StrMap<String> = skills::strmap::StrMap::new();
    m.insert("b".to_string(), "1".to_string());
    m.insert("a".to_string(), "2".to_string());
    m.insert("b".to_string(), "3".to_string());
    assert_eq!(m.len(), 2);
    assert_eq!(m.key_at(0), "a");
    assert_eq!(m.get("b").map(|s| s.as_str()), Some("3"));
    assert_eq!(m.get("a").map(|s| s.as_str()), Some("2"));
    assert!(m.get("c").is_none());
}

fn project_install(root: &str) -> Install {
    let mut i = sample_install();
    i.skill = "alpha".into();
    i.target = TargetRec::Project { root: root.into() };
    i
}

#[test]
fn project_roots_compare_as_paths() {
    let mut reg = Registry::empty();
    reg.installs.push(project_install("/x"));
    let slash = TargetRec::Project { root: "/x/".into() };
    let dotted = TargetRec::Project { root: "/x/./".into() };
    assert!(slash.same(&TargetRec::Project { root: "/x".into() }));
    assert!(!slash.same(&TargetRec::Project { root: "/y".into() }));
    assert!(!TargetRec::Project { root: "x".into() }.same(&TargetRec::Project { root: "/x".into() }));
    assert!(reg.find("alpha", &slash).is_some());
    assert!(reg.find("alpha", &dotted).is_some());
    assert!(reg.find("alpha", &TargetRec::Project { root: "/x/y".into() }).is_none());
    assert!(reg.remove("alpha", &slash).is_some());
    assert!(reg.installs.is_empty());
}

#[test]
fn a_relative_project_root_record_is_refused() {
    let mut i = project_install("relative/root");
    i.method = Method::Copy;
    let err = skills::remove::validate_record(&i).unwrap_err();
    assert_eq!(
        err.message(),
        "磁盘实况与安装记录不一致: 安装记录损坏：project root \"relative/root\" 不是绝对路径，未执行磁盘删除"
    );
    assert!(skills::remove::validate_record(&project_install("/abs/root")).is_ok());
}

#[test]
fn closing_a_removal_drops_the_record() {
    let mut reg = Registry::empty();
    reg.installs.push(project_install("/a"));
    reg.installs.push(project_install("/b"));
    let out = skills::remove::close_removal(&mut reg, 0, false);
    assert_eq!(out, skills::remove::RemoveOutcome::RecordOnly);
    assert_eq!(reg.installs.len(), 1);
    assert!(matches!(&reg.installs[0].target, TargetRec::Project { root } if root == "/b"));
    assert_eq!(skills::remove::close_removal(&mut reg, 0, true), skills::remove::RemoveOutcome::Removed);
    assert!(reg.installs.is_empty());
}
