use skills::cache::{
    entry_from_text, moved_to, parse_frontmatter, plan_bookmark_cache, plan_cache, sort_entries, upstream_ref, CacheStep, SkillEntry,
};
use skills::source::SourceSpec;

fn entry(text: &str, rel: &str) -> Option<SkillEntry> {
    entry_from_text(text, rel.to_string())
}

#[test]
fn scan_finds_multiple_skills_with_frontmatter() {
    let found = vec![
        entry("---\nname: beta\ndescription: B 技能\n---\n# Beta\n", "skills/beta").unwrap(),
        entry("---\nname: alpha\ndescription: A 技能\n---\n# Alpha\n", "skills/alpha").unwrap(),
    ];
    let skills = sort_entries(&found);
    assert_eq!(skills.len(), 2);
    assert_eq!(skills[0].name, "alpha");
    assert_eq!(skills[0].rel_path, "skills/alpha");
    assert_eq!(skills[0].description, "A 技能");
}

#[test]
fn scan_supports_root_level_single_skill() {
    let e = entry("---\nname: solo\ndescription: 单技能\n---\n", ".").unwrap();
    assert_eq!(e.rel_path, ".");
    assert_eq!(e.name, "solo");
}

#[test]
fn scan_skips_invalid_frontmatter_without_directory_name_fallback() {
    assert!(entry("# no frontmatter\n", "no-frontmatter").is_none());
    assert!(entry("---\nname: incomplete\ndescription: bad\n", "incomplete").is_none());
    assert!(entry("---\ndescription: missing name\n---\n", "missing-name").is_none());
    assert!(entry("---\nname: missing-description\n---\n", "missing-description").is_none());
    let ok = entry("---\nname: valid\ndescription: valid skill\n---\n", "valid").unwrap();
    assert_eq!(ok.name, "valid");
}

#[test]
fn frontmatter_values_are_trimmed_and_unquoted() {
    assert_eq!(
        parse_frontmatter("---\r\nname:  \"quoted\" \r\ndescription: 'single'\r\n---\r\nbody"),
        Some(("quoted".to_string(), "single".to_string()))
    );
    assert_eq!(
        parse_frontmatter("  ---  \nname: a: b\ndescription: x\n  ---\n"),
        Some(("a: b".to_string(), "x".to_string()))
    );
}

#[test]
fn frontmatter_last_value_wins_and_empty_values_are_ignored() {
    assert_eq!(
        parse_frontmatter("---\nname: first\nname: second\nname: \"\"\ndescription: d\n---"),
        Some(("second".to_string(), "d".to_string()))
    );
    assert_eq!(parse_frontmatter(""), None);
    assert_eq!(parse_frontmatter("---"), None);
    assert_eq!(parse_frontmatter("---\nname: a\ndescription: b\n"), None);
    assert_eq!(parse_frontmatter("text\n---\nname: a\ndescription: b\n---\n"), None);
}

#[test]
fn lines_after_the_closing_delimiter_are_not_read() {
    assert_eq!(
        parse_frontmatter("---\nname: a\n---\ndescription: late\n"),
        None
    );
}

#[test]
fn entries_sort_by_name_then_path_components() {
    let found = vec![
        entry("---\nname: same\ndescription: 2\n---\n", "skills/x").unwrap(),
        entry("---\nname: same\ndescription: 1\n---\n", "skills-x/y").unwrap(),
        entry("---\nname: aaa\ndescription: 0\n---\n", "z").unwrap(),
    ];
    let sorted = sort_entries(&found);
    let order: Vec<&str> = sorted.iter().map(|e| e.description.as_str()).collect();
    assert_eq!(order, vec!["0", "2", "1"]);
}

fn remote() -> SourceSpec {
    SourceSpec {
        key: "github/o/r".into(),
        url: Some("https://github.com/o/r".into()),
        local_path: None,
    }
}

#[test]
fn ensure_cached_clones_once_then_reuses() {
    match plan_cache(&remote(), None, false).unwrap() {
        CacheStep::Clone(u) => assert_eq!(u, "https://github.com/o/r"),
        other => panic!("{:?}", other),
    }
    match plan_cache(&remote(), Some("abc123".into()), true).unwrap() {
        CacheStep::Reuse(c) => assert_eq!(c, "abc123"),
        other => panic!("{:?}", other),
    }
}

#[test]
fn ensure_cached_replaces_invalid_remote_cache() {
    match plan_cache(&remote(), Some("  \n".into()), true).unwrap() {
        CacheStep::Clone(_) => {}
        other => panic!("{:?}", other),
    }
}

#[test]
fn ensure_cached_copies_local_source_once_then_reuses() {
    let local = SourceSpec {
        key: "local/src".into(),
        url: None,
        local_path: Some("/x/src".into()),
    };
    match plan_cache(&local, None, false).unwrap() {
        CacheStep::Copy(p) => assert_eq!(p, "/x/src"),
        other => panic!("{:?}", other),
    }
    match plan_cache(&local, None, true).unwrap() {
        CacheStep::Reuse(c) => assert_eq!(c, ""),
        other => panic!("{:?}", other),
    }
}

#[test]
fn a_source_with_neither_origin_cannot_be_cached() {
    let bad = SourceSpec {
        key: "x".into(),
        url: None,
        local_path: None,
    };
    assert_eq!(plan_cache(&bad, None, true).unwrap_err().message(), "source 缺少 url 或本地路径");
}

#[test]
fn upstream_ref_strips_every_leading_heads_prefix() {
    assert_eq!(upstream_ref("origin", "refs/heads/main"), "refs/remotes/origin/main");
    assert_eq!(upstream_ref("upstream", "refs/heads/feat/x"), "refs/remotes/upstream/feat/x");
    assert_eq!(upstream_ref("o", "refs/heads/refs/heads/b"), "refs/remotes/o/b");
    assert_eq!(upstream_ref("o", "main"), "refs/remotes/o/main");
}

#[test]
fn moved_to_reports_only_a_new_commit() {
    assert_eq!(moved_to("c1", "c1".to_string()), None);
    assert_eq!(moved_to("c1", "c2".to_string()), Some("c2".to_string()));
}

#[test]
fn bookmarking_a_local_source_copies_it_afresh() {
    let local = SourceSpec {
        key: "local/src".into(),
        url: None,
        local_path: Some("/home/u/src".into()),
    };
    match plan_bookmark_cache(&local, None, true).unwrap() {
        CacheStep::Copy(l) => assert_eq!(l, "/home/u/src"),
        other => panic!("{:?}", other),
    }
    match plan_bookmark_cache(&remote(), Some("abc123".into()), true).unwrap() {
        CacheStep::Reuse(c) => assert_eq!(c, "abc123"),
        other => panic!("{:?}", other),
    }
}
