use skills::cache::entry_from_text;
use skills::commands::{
    apply_auto_update, auto_update_args, check_fav_list_args, check_picked, fav_default_pick,
    favorite_skill, format_favorites, list_lines, plan_for_args, register_source_at,
    removal_pairs, resolve_targets, tag_command,
};
use skills::config::Config;
use skills::paths::Target;
use skills::registry::{FavSkill, Favorite, Install, Method, Registry, SourceRecord, TargetRec};
use skills::source::parse_source;

fn install(skill: &str, source: &str, target: &str, method: Method) -> Install {
    Install {
        skill: skill.into(),
        source: source.into(),
        source_path: format!("skills/{skill}"),
        target: TargetRec::Global { name: target.into() },
        method,
        commit: "c1".into(),
        tags: vec![],
        auto_update: None,
        installed_at: "t".into(),
    }
}

fn source(auto: Option<bool>) -> SourceRecord {
    SourceRecord {
        url: "u".into(),
        commit: "c9".into(),
        fetched_at: "t".into(),
        auto_update: auto,
    }
}

fn reg() -> Registry {
    let mut r = Registry::empty();
    r.sources.insert("github/z/z".into(), source(None));
    r.sources.insert("github/a/a".into(), source(None));
    r.installs.push(install("x", "github/z/z", "agents", Method::Copy));
    r.installs.push(install("y", "github/a/a", "agents", Method::Symlink));
    r.installs.push(install("x", "github/z/z", "codex", Method::Copy));
    r
}

fn s(v: &[&str]) -> Vec<String> {
    v.iter().map(|x| x.to_string()).collect()
}

#[test]
fn update_args_are_paired_or_refused() {
    let r = reg();
    let e = plan_for_args(&r, &s(&["x"]), &Some("global:agents".into()), true).unwrap_err();
    assert_eq!(e.message(), "--all 是显式全量更新，不能与技能名/--target 同用");
    let e = plan_for_args(&r, &vec![], &Some("global:agents".into()), false).unwrap_err();
    assert!(e.message().contains("--target 需搭配技能名"));
    let e = plan_for_args(&r, &s(&["x"]), &None, false).unwrap_err();
    assert!(e.message().contains("显式更新技能必须同时给出 --target"));
    let e = plan_for_args(&r, &s(&["x"]), &Some("nowhere".into()), false).unwrap_err();
    assert!(e.message().contains("无效的 target 语法: nowhere"));
    let all = plan_for_args(&r, &vec![], &None, true).unwrap();
    assert!(all.sources.is_empty());
    assert_eq!(all.copies.len(), 2);
}

#[test]
fn named_skills_are_merged_with_sorted_unique_sources() {
    let mut r = reg();
    r.installs.push(install("w", "github/z/z", "agents", Method::Copy));
    let p = plan_for_args(&r, &s(&["x", "y", "w"]), &Some("global:agents".into()), false).unwrap();
    assert_eq!(p.sources, s(&["github/a/a", "github/z/z"]));
    assert_eq!(p.symlinks, s(&["y"]));
    let copies: Vec<&str> = p.copies.iter().map(|c| c.skill.as_str()).collect();
    assert_eq!(copies, vec!["x", "w"]);
    assert!(p.copies.iter().all(|c| c.update));
    let e = plan_for_args(&r, &s(&["x", "nope"]), &Some("global:agents".into()), false).unwrap_err();
    assert_eq!(e.message(), "技能未安装: nope @ Global { name: \"agents\" }");
}

#[test]
fn removal_pairs_deduplicate_tag_and_named_hits() {
    let mut r = reg();
    r.installs[0].tags = s(&["t"]);
    let pairs = removal_pairs(&r, &Some("t".into()), &s(&["x"]), &vec![]).unwrap();
    let shown: Vec<(&str, TargetRec)> = pairs.iter().map(|p| (p.0.as_str(), p.1.clone())).collect();
    assert_eq!(
        shown,
        vec![
            ("x", TargetRec::Global { name: "agents".into() }),
            ("x", TargetRec::Global { name: "codex".into() }),
        ]
    );
    let pairs = removal_pairs(&r, &None, &s(&["x", "x"]), &s(&["global:agents", "global:agents"])).unwrap();
    assert_eq!(pairs.len(), 1);
    let e = removal_pairs(&r, &None, &s(&["x"]), &s(&["global:agents", "bad"])).unwrap_err();
    assert!(e.message().contains("bad"));
    assert!(removal_pairs(&r, &None, &vec![], &s(&["bad"])).unwrap().is_empty());
}

#[test]
fn list_filters_by_tag_target_or_global() {
    let mut r = reg();
    r.installs[2].tags = s(&["web"]);
    let all = list_lines(&r, &None, &None, false).unwrap();
    assert_eq!(all.len(), 3);
    assert_eq!(
        all[0],
        "x\tCopy\tGlobal { name: \"agents\" }\ttags=[]\tauto_update=None"
    );
    let tagged = list_lines(&r, &Some("web".into()), &None, false).unwrap();
    assert_eq!(
        tagged,
        vec!["x\tCopy\tGlobal { name: \"codex\" }\ttags=[\"web\"]\tauto_update=None".to_string()]
    );
    let at = list_lines(&r, &None, &Some("global:codex".into()), false).unwrap();
    assert_eq!(at.len(), 1);
    assert_eq!(list_lines(&Registry::empty(), &None, &None, true).unwrap(), s(&["（无已安装技能）"]));
    assert!(list_lines(&r, &None, &Some("project:rel".into()), false).is_err());
}

#[test]
fn favorites_listing_has_two_levels() {
    let mut r = Registry::empty();
    r.favorites.insert(
        "github/o/r".into(),
        Favorite {
            url: Some("https://github.com/o/r".into()),
            local_path: None,
            commit: "deadbeefcafe".into(),
            bookmarked_at: "2026-08-25T10:00:00Z".into(),
            skills: vec![
                FavSkill { name: "a".into(), description: "A".into(), source_path: "skills/a".into() },
                FavSkill { name: "b".into(), description: "B".into(), source_path: "skills/b".into() },
            ],
        },
    );
    r.favorites.insert(
        "local/solo".into(),
        Favorite {
            url: None,
            local_path: Some("/x/solo".into()),
            commit: String::new(),
            bookmarked_at: "t".into(),
            skills: vec![FavSkill { name: "solo".into(), description: "单技能用途".into(), source_path: ".".into() }],
        },
    );
    assert_eq!(
        format_favorites(&r),
        s(&[
            "github/o/r    (deadbee, 收藏于 2026-08-25)",
            "  ├─ a — A",
            "  └─ b — B",
            "local/solo — 单技能用途    (本地源)",
        ])
    );
    assert_eq!(format_favorites(&Registry::empty()), s(&["（无收藏）"]));
    let f = favorite_skill(&r, "github/o/r", "b").unwrap();
    assert_eq!(f.0.key, "github/o/r");
    assert_eq!(f.0.url.as_deref(), Some("https://github.com/o/r"));
    assert_eq!(f.1, "skills/b");
    assert_eq!(favorite_skill(&r, "github/o/r", "c").unwrap_err().message(), "未收藏: github/o/r 中无技能 c");
    assert_eq!(favorite_skill(&r, "nope", "c").unwrap_err().message(), "未收藏: nope");
    assert_eq!(fav_default_pick(r.favorites.get("local/solo").unwrap()), Some(s(&["solo"])));
    assert_eq!(fav_default_pick(r.favorites.get("github/o/r").unwrap()), None);
    assert!(check_fav_list_args(&s(&["a"])).is_err());
    assert!(check_fav_list_args(&vec![]).is_ok());
}

#[test]
fn auto_update_sets_source_or_install_flags() {
    let mut r = reg();
    assert_eq!(apply_auto_update(&mut r, &None, &None, &Some("github/a/a".into()), Some(true)).unwrap(), false);
    assert_eq!(r.sources.get("github/a/a").unwrap().auto_update, Some(true));
    assert_eq!(r.sources.get("github/z/z").unwrap().auto_update, None);
    let e = apply_auto_update(&mut r, &None, &None, &Some("nope".into()), None).unwrap_err();
    assert_eq!(e.message(), "未知来源 nope");
    let hint = auto_update_args(&mut r, &Some("y".into()), &Some("global:agents".into()), &None, Some(false)).unwrap();
    assert!(hint);
    assert_eq!(r.installs[1].auto_update, Some(false));
    let hint = auto_update_args(&mut r, &Some("y".into()), &Some("global:agents".into()), &None, None).unwrap();
    assert!(!hint);
    assert_eq!(r.installs[1].auto_update, None);
    let e = auto_update_args(&mut r, &Some("q".into()), &Some("global:agents".into()), &None, None).unwrap_err();
    assert_eq!(e.message(), "技能未安装: q");
    let e = auto_update_args(&mut r, &None, &None, &None, None).unwrap_err();
    assert!(e.message().contains("需指定"));
}

#[test]
fn targets_resolve_from_flags() {
    let cfg = Config::defaults(&Some("/home/u".into()));
    let t = resolve_targets(&vec![], true, &cfg, "/work").unwrap();
    assert_eq!(t, vec![Target::Global { name: "agents".into() }]);
    let t = resolve_targets(&vec![], false, &cfg, "/work").unwrap();
    assert_eq!(t, vec![Target::Project { root: "/work".into() }]);
    let t = resolve_targets(&s(&["project:/p", "global:codex"]), true, &cfg, "/work").unwrap();
    assert_eq!(t.len(), 2);
    assert!(resolve_targets(&s(&["x"]), false, &cfg, "/work").is_err());
}

#[test]
fn picked_skills_must_exist_and_sources_register_once() {
    let all = vec![entry_from_text("---\nname: a\ndescription: d\n---\n", "a".into()).unwrap()];
    assert!(check_picked(&all, &s(&["a"])).is_ok());
    assert_eq!(check_picked(&all, &s(&["a", "b"])).unwrap_err().message(), "仓库中无技能 b");
    let mut r = Registry::empty();
    let spec = parse_source("o/r").unwrap();
    register_source_at(&mut r, &spec, "c1", "t1".into());
    register_source_at(&mut r, &spec, "c2", "t2".into());
    let rec = r.sources.get("github/o/r").unwrap();
    assert_eq!(rec.commit, "c1");
    assert_eq!(rec.url, "https://github.com/o/r");
    assert_eq!(rec.fetched_at, "t1");
}

#[test]
fn tag_command_sets_or_clears() {
    let mut r = reg();
    tag_command(&mut r, "x", "global:codex", s(&["a", "b"]), false).unwrap();
    assert_eq!(r.installs[2].tags, s(&["a", "b"]));
    tag_command(&mut r, "x", "global:codex", s(&["z"]), true).unwrap();
    assert!(r.installs[2].tags.is_empty());
    assert!(tag_command(&mut r, "x", "oops", vec![], false).is_err());
    assert!(tag_command(&mut r, "nope", "global:codex", vec![], false).is_err());
}

#[test]
fn dry_run_prints_sources_symlinks_and_decisions() {
    let mut r = reg();
    r.sources.insert("github/z/z".into(), source(Some(true)));
    let p = plan_for_args(&r, &vec![], &None, false).unwrap();
    let lines = skills::commands::dry_run_lines(&p);
    assert_eq!(
        lines,
        s(&[
            "将拉取仓库: [\"github/z/z\"]",
            "软连接跟随: []",
            "x @ Global { name: \"agents\" }: 更新（更新）",
            "x @ Global { name: \"codex\" }: 更新（更新）",
        ])
    );
}

#[test]
fn removal_failure_count_is_written_in_decimal() {
    assert_eq!(
        skills::commands::removal_failures_error(12).message(),
        "12 项删除失败（详见 stderr）"
    );
    assert_eq!(skills::text::decimal_text(0), "0");
    assert_eq!(skills::text::decimal_text(907), "907");
    assert_eq!(skills::text::decimal_text(usize::MAX), usize::MAX.to_string());
}
