use skills::registry::{Install, Method, Registry, SourceRecord, TargetRec};
use skills::update::{
    build_plan, copy_should_update, checked_install, local_change_text, no_remote_error, prescan_refusal, prescan_report,
    record_fetch, repo_should_update, sync_copy_commit, sync_symlink_commits, Selection,
};

fn reg_with(source_auto: Option<bool>, installs: Vec<(Method, Option<bool>)>) -> Registry {
    let mut reg = Registry::empty();
    reg.sources.insert(
        "github/o/r".into(),
        SourceRecord {
            url: "https://github.com/o/r".into(),
            commit: "c1".into(),
            fetched_at: "2026-08-20T00:00:00Z".into(),
            auto_update: source_auto,
        },
    );
    for (i, (method, auto)) in installs.into_iter().enumerate() {
        reg.installs.push(Install {
            skill: format!("s{i}"),
            source: "github/o/r".into(),
            source_path: format!("skills/s{i}"),
            target: TargetRec::Global {
                name: "agents".into(),
            },
            method,
            commit: "c1".into(),
            tags: vec![],
            auto_update: auto,
            installed_at: "2026-08-20T00:00:00Z".into(),
        });
    }
    reg
}

fn agents() -> TargetRec {
    TargetRec::Global {
        name: "agents".into(),
    }
}

#[test]
fn repo_update_follows_source_flag_default_false() {
    assert!(!repo_should_update(
        reg_with(None, vec![]).sources.get("github/o/r").unwrap()
    ));
    assert!(repo_should_update(
        reg_with(Some(true), vec![]).sources.get("github/o/r").unwrap()
    ));
}

#[test]
fn copy_effective_flag_install_overrides_source() {
    let reg = reg_with(Some(true), vec![(Method::Copy, Some(false))]);
    assert!(!copy_should_update(&reg, &reg.installs[0]));
    let reg = reg_with(Some(false), vec![(Method::Copy, Some(true))]);
    assert!(copy_should_update(&reg, &reg.installs[0]));
    let reg = reg_with(Some(true), vec![(Method::Copy, None)]);
    assert!(copy_should_update(&reg, &reg.installs[0]));
    let reg = reg_with(None, vec![(Method::Copy, None)]);
    assert!(!copy_should_update(&reg, &reg.installs[0]));
}

#[test]
fn plan_respects_two_levels() {
    let reg = reg_with(
        Some(true),
        vec![
            (Method::Symlink, None),
            (Method::Copy, Some(false)),
            (Method::Copy, None),
        ],
    );
    let plan = build_plan(&reg, None);
    assert_eq!(plan.sources.len(), 1);
    let copy_decisions: Vec<_> = plan
        .copies
        .iter()
        .map(|c| (c.skill.clone(), c.update))
        .collect();
    assert_eq!(
        copy_decisions,
        vec![("s1".to_string(), false), ("s2".to_string(), true)]
    );
    assert_eq!(plan.symlinks, vec!["s0".to_string()]);
    let reg2 = reg_with(
        Some(false),
        vec![(Method::Symlink, None), (Method::Copy, None)],
    );
    let plan2 = build_plan(&reg2, None);
    assert!(plan2.sources.is_empty());
    assert!(plan2.symlinks.is_empty());
    assert!(plan2.copies.iter().all(|c| !c.update));
}

#[test]
fn plan_reasons_name_why_a_copy_is_skipped() {
    let reg = reg_with(
        Some(true),
        vec![(Method::Copy, Some(false)), (Method::Copy, None)],
    );
    let plan = build_plan(&reg, None);
    assert_eq!(plan.copies[0].reason, "副本级/包级配置关闭");
    assert_eq!(plan.copies[1].reason, "更新");
    let reg = reg_with(None, vec![(Method::Copy, Some(true))]);
    let plan = build_plan(&reg, None);
    assert_eq!(plan.copies[0].reason, "仓库不更新");
    assert!(!plan.copies[0].update);
}

#[test]
fn explicit_skill_target_forces_update() {
    let reg = reg_with(Some(false), vec![(Method::Copy, Some(false))]);
    let sel = Selection {
        skill: "s0".into(),
        target: agents(),
    };
    let plan = build_plan(&reg, Some(&sel));
    assert!(plan.copies[0].update);
    assert_eq!(plan.sources.len(), 1);
    assert_eq!(plan.copies[0].reason, "显式指定");
}

#[test]
fn explicit_selection_for_unknown_skill_is_distinguishable() {
    let reg = reg_with(Some(true), vec![(Method::Copy, None)]);
    let sel = Selection {
        skill: "nope".into(),
        target: agents(),
    };
    let plan = build_plan(&reg, Some(&sel));
    assert!(plan.missing.is_some());
    assert_eq!(plan.missing.as_deref(), Some("nope @ Global { name: \"agents\" }"));
    assert!(plan.sources.is_empty() && plan.copies.is_empty() && plan.symlinks.is_empty());
}

#[test]
fn execute_plan_copy_missing_record_returns_not_installed() {
    let reg = reg_with(Some(true), vec![(Method::Copy, None)]);
    let other = TargetRec::Global {
        name: "codex".into(),
    };
    let err = checked_install(&reg, "s0", &other).unwrap_err();
    assert_eq!(err.message(), "技能未安装: s0 @ Global { name: \"codex\" }");
    assert_eq!(checked_install(&reg, "s0", &agents()).unwrap(), 0);
}

#[test]
fn local_source_update_returns_friendly_error() {
    let err = no_remote_error("github/o/r");
    assert!(err.message().contains("本地源"));
    assert!(err.message().contains("github/o/r"));
}

#[test]
fn record_fetch_moves_commit_and_reports_eight_chars() {
    let mut reg = reg_with(Some(true), vec![]);
    let line = record_fetch(
        &mut reg,
        "github/o/r",
        "0123456789abcdef".to_string(),
        "2026-09-01T00:00:00Z".to_string(),
    );
    assert_eq!(line, "仓库 github/o/r → 01234567");
    let s = reg.sources.get("github/o/r").unwrap();
    assert_eq!(s.commit, "0123456789abcdef");
    assert_eq!(s.fetched_at, "2026-09-01T00:00:00Z");
    assert_eq!(s.url, "https://github.com/o/r");
    let line = record_fetch(&mut reg, "github/x/y", "abc".to_string(), "t".to_string());
    assert_eq!(line, "仓库 github/x/y → abc");
    assert!(reg.sources.get("github/x/y").is_none());
}

#[test]
fn copy_and_symlink_commits_follow_the_source() {
    let mut reg = reg_with(
        Some(true),
        vec![(Method::Copy, None), (Method::Symlink, None)],
    );
    reg.sources.insert(
        "github/o/r".into(),
        SourceRecord {
            url: "https://github.com/o/r".into(),
            commit: "c2".into(),
            fetched_at: "t".into(),
            auto_update: Some(true),
        },
    );
    let line = sync_copy_commit(&mut reg, 0, &agents()).unwrap();
    assert_eq!(line, "副本 s0 @ Global { name: \"agents\" } 已更新");
    assert_eq!(reg.installs[0].commit, "c2");
    let line = sync_symlink_commits(&mut reg, "s1").unwrap();
    assert_eq!(line, "软连接 s1 跟随仓库");
    assert_eq!(reg.installs[1].commit, "c2");
}

#[test]
fn unregistered_source_is_a_mismatch() {
    let mut reg = reg_with(Some(true), vec![(Method::Symlink, None)]);
    reg.installs[0].source = "github/gone/repo".into();
    let err = sync_symlink_commits(&mut reg, "s0").unwrap_err();
    assert_eq!(
        err.message(),
        "磁盘实况与安装记录不一致: 安装记录引用的 source 未登记: github/gone/repo"
    );
    assert_eq!(reg.installs[0].commit, "c1");
    let err = sync_copy_commit(&mut reg, 0, &agents()).unwrap_err();
    assert!(err.message().contains("未登记"));
}

#[test]
fn local_change_report_lists_each_divergence() {
    let t = agents();
    let text = local_change_text(
        "alpha",
        &t,
        &vec!["内容被修改: SKILL.md".to_string(), "文件缺失: a.md".to_string()],
    );
    assert_eq!(
        text,
        "副本 alpha @ Global { name: \"agents\" } 有本地修改（更新会覆盖）：\n  内容被修改: SKILL.md\n  文件缺失: a.md"
    );
}

#[test]
fn prescan_goes_on_without_reports() {
    assert!(prescan_refusal(&Vec::new()).is_ok());
    assert!(prescan_report("alpha", &agents(), &Vec::new()).is_none());
}

#[test]
fn prescan_refuses_with_every_report_one_per_line() {
    let t = agents();
    let one = prescan_report("alpha", &t, &vec!["文件缺失: a.md".to_string()]).unwrap();
    assert_eq!(one, "副本 alpha @ Global { name: \"agents\" } 有本地修改（更新会覆盖）：\n  文件缺失: a.md");
    let err = prescan_refusal(&vec![one.clone(), "second".to_string()]).unwrap_err();
    match err {
        skills::error::Error::Mismatch(m) => assert_eq!(m, format!("{one}\nsecond")),
        other => panic!("unexpected {other:?}"),
    }
}
