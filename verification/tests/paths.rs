use skills::paths::{Layout, Target};

#[test]
fn parse_global_target() {
    let t = Target::parse("global:agents").unwrap();
    assert_eq!(
        t,
        Target::Global {
            name: "agents".into()
        }
    );
}

#[test]
fn parse_project_target_requires_absolute() {
    assert!(Target::parse("project:./rel").is_err());
    let abs = "project:/work";
    assert!(Target::parse(abs).is_ok());
}

#[test]
fn parse_rejects_garbage() {
    assert!(Target::parse("agents").is_err());
    assert!(Target::parse("global:").is_err());
}

#[test]
fn layout_paths() {
    let l = Layout::at("/x/.skills".to_string());
    assert_eq!(l.cache_dir("github/a/b"), "/x/.skills/github/a/b");
    assert_eq!(l.registry_path(), "/x/.skills/registry.json");
}

#[test]
fn project_install_dir_is_dot_agents_skills() {
    let cfg = skills::config::Config::defaults(&Some("/home/u".to_string()));
    let t = Target::Project {
        root: "/tmp/proj".into(),
    };
    assert_eq!(t.install_dir(&cfg).unwrap(), "/tmp/proj/.agents/skills");
}

#[test]
fn global_install_dir_resolves_via_config() {
    let cfg = skills::config::Config::defaults(&Some("/home/u".to_string()));
    let t = Target::Global {
        name: "agents".into(),
    };
    let dir = t.install_dir(&cfg).unwrap();
    assert!(dir.ends_with(".agents/skills"));
    let unknown = Target::Global { name: "nope".into() };
    assert!(unknown.install_dir(&cfg).is_err());
}

#[test]
fn skills_home_env_handling() {
    let l = Layout::new(Some("/tmp/skills-test-override".into()), Some("/home/u".into())).unwrap();
    assert_eq!(l.root, "/tmp/skills-test-override");
    let l = Layout::new(Some(String::new()), Some("/home/u".into())).unwrap();
    assert!(l.root.starts_with('/') && l.root.ends_with(".skills"), "{:?}", l.root);
    assert!(Layout::new(None, None).is_err());
}
