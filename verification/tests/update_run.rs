use skills::error::Error;
use skills::registry::{Install, Method, Registry, SourceRecord, TargetRec};
use skills::update::{update_step, CopyDecision, Plan, UpdateAction, UpdateEvent, UpdatePhase, UpdateState};

fn agents() -> TargetRec {
    TargetRec::Global { name: "agents".into() }
}

fn reg() -> Registry {
    let mut reg = Registry::empty();
    reg.sources.insert(
        "github/o/r".into(),
        SourceRecord {
            url: "https://github.com/o/r".into(),
            commit: "c1".into(),
            fetched_at: "t".into(),
            auto_update: Some(true),
        },
    );
    for (skill, method) in [("a", Method::Copy), ("l", Method::Symlink)] {
        reg.installs.push(Install {
            skill: skill.into(),
            source: "github/o/r".into(),
            source_path: format!("skills/{skill}"),
            target: agents(),
            method,
            commit: "c1".into(),
            tags: vec![],
            auto_update: None,
            installed_at: "t".into(),
        });
    }
    reg
}

fn plan() -> Plan {
    Plan {
        sources: vec!["github/o/r".into()],
        symlinks: vec!["l".into()],
        copies: vec![
            CopyDecision { skill: "a".into(), target: agents(), update: true, reason: "x".into() },
            CopyDecision { skill: "b".into(), target: agents(), update: false, reason: "y".into() },
        ],
        missing: None,
    }
}

fn start() -> UpdateState {
    UpdateState { phase: UpdatePhase::Scan, next: 0, install: 0, reports: vec![], done: vec![] }
}

#[test]
fn a_missing_selection_is_refused_at_once() {
    let mut r = reg();
    let mut p = plan();
    p.missing = Some("nope @ x".into());
    match update_step(&mut r, &p, false, start(), UpdateEvent::Start) {
        Err(Error::NotInstalled(m)) => assert_eq!(m, "nope @ x"),
        _ => panic!("not refused"),
    }
}

#[test]
fn a_clean_run_scans_then_fetches_copies_follows_and_saves() {
    let mut r = reg();
    let p = plan();
    let (st, a) = update_step(&mut r, &p, false, start(), UpdateEvent::Start).unwrap();
    assert!(matches!(a, UpdateAction::Scan(0)));
    let (st, a) = update_step(&mut r, &p, false, st, UpdateEvent::Scanned(vec![])).unwrap();
    assert!(matches!(a, UpdateAction::Fetch(ref k) if k == "github/o/r"));
    let (st, a) = update_step(&mut r, &p, false, st, UpdateEvent::Fetched(Some("c2c2c2c2c2".into()))).unwrap();
    assert!(matches!(a, UpdateAction::Copy(0)));
    assert_eq!(r.sources.get("github/o/r").unwrap().commit, "c2c2c2c2c2");
    let (st, a) = update_step(&mut r, &p, false, st, UpdateEvent::Copied).unwrap();
    assert!(matches!(a, UpdateAction::Follow(ref n) if n == "l"));
    assert_eq!(r.installs[0].commit, "c2c2c2c2c2");
    let (st, a) = update_step(&mut r, &p, false, st, UpdateEvent::Proceed).unwrap();
    assert!(matches!(a, UpdateAction::Save));
    assert_eq!(r.installs[1].commit, "c2c2c2c2c2");
    assert_eq!(
        st.done,
        vec![
            "仓库 github/o/r → c2c2c2c2".to_string(),
            "副本 a @ Global { name: \"agents\" } 已更新".to_string(),
            "软连接 l 跟随仓库".to_string(),
        ]
    );
}

#[test]
fn local_changes_refuse_the_run_before_any_fetch() {
    let mut r = reg();
    let p = plan();
    let (st, _) = update_step(&mut r, &p, false, start(), UpdateEvent::Start).unwrap();
    match update_step(&mut r, &p, false, st, UpdateEvent::Scanned(vec!["文件缺失: a.md".into()])) {
        Err(Error::Mismatch(m)) => assert_eq!(
            m,
            "副本 a @ Global { name: \"agents\" } 有本地修改（更新会覆盖）：\n  文件缺失: a.md"
        ),
        _ => panic!("not refused"),
    }
    assert_eq!(r.sources.get("github/o/r").unwrap().commit, "c1");
    assert_eq!(r.installs[0].commit, "c1");
}

#[test]
fn force_skips_the_scan_and_a_cache_without_git_stops() {
    let mut r = reg();
    let p = plan();
    let (st, a) = update_step(&mut r, &p, true, start(), UpdateEvent::Start).unwrap();
    assert!(matches!(a, UpdateAction::Fetch(_)));
    let err = update_step(&mut r, &p, true, st, UpdateEvent::NotGit).unwrap_err();
    assert!(err.message().contains("本地源"));
}

#[test]
fn an_unchanged_source_records_nothing() {
    let mut r = reg();
    let p = plan();
    let (st, _) = update_step(&mut r, &p, true, start(), UpdateEvent::Start).unwrap();
    let (st, a) = update_step(&mut r, &p, true, st, UpdateEvent::Fetched(None)).unwrap();
    assert!(matches!(a, UpdateAction::Copy(0)));
    assert!(st.done.is_empty());
    assert_eq!(r.sources.get("github/o/r").unwrap().commit, "c1");
}
