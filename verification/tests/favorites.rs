use skills::cache::{entry_from_text, sort_entries, SkillEntry};
use skills::error::Error;
use skills::favorites::{bookmark, bookmark_at, is_single_skill_repo, resolve_key, unbookmark};
use skills::registry::Registry;
use skills::source::{parse_source, SourceSpec};

const SRC: &str = "/tmp/fixture/src";

fn entry(text: &str, rel: &str) -> SkillEntry {
    entry_from_text(text, rel.to_string()).unwrap()
}

/// The scan of a local source holding two skills.
fn scanned(alpha_desc: &str, with_beta: bool) -> Vec<SkillEntry> {
    let mut v = vec![entry(
        &format!("---\nname: alpha\ndescription: {alpha_desc}\n---\n"),
        "skills/alpha",
    )];
    if with_beta {
        v.push(entry("---\nname: beta\ndescription: B 技能\n---\n", "skills/beta"));
    }
    sort_entries(&v)
}

fn setup() -> (Registry, SourceSpec) {
    (Registry::empty(), parse_source(SRC).unwrap())
}

fn names(v: &[&str]) -> Vec<String> {
    v.iter().map(|s| s.to_string()).collect()
}

#[test]
fn bookmark_whole_repo_snapshots_all_skills() {
    let (mut reg, spec) = setup();
    let (key, n) = bookmark(&mut reg, &spec, &scanned("A 技能", true), &vec![], "").unwrap();
    assert_eq!(key, "local/src");
    assert_eq!(n, 2);
    let fav = reg.favorites.get("local/src").unwrap();
    assert_eq!(fav.skills.len(), 2);
    assert_eq!(fav.skills[0].name, "alpha");
    assert_eq!(fav.skills[0].description, "A 技能");
    assert_eq!(fav.skills[0].source_path, "skills/alpha");
    assert_eq!(fav.local_path.as_deref(), Some(SRC));
    assert!(fav.url.is_none());
    assert!(reg.sources.contains_key("local/src"));
}

#[test]
fn bookmark_single_skill_upserts_without_touching_others() {
    let (mut reg, spec) = setup();
    bookmark(&mut reg, &spec, &scanned("A 技能", true), &names(&["alpha"]), "").unwrap();
    assert_eq!(reg.favorites.get("local/src").unwrap().skills.len(), 1);
    bookmark(&mut reg, &spec, &scanned("A 技能", true), &names(&["beta"]), "").unwrap();
    assert_eq!(reg.favorites.get("local/src").unwrap().skills.len(), 2);
    bookmark(&mut reg, &spec, &scanned("A2 技能", true), &names(&["alpha"]), "").unwrap();
    let fav = reg.favorites.get("local/src").unwrap();
    let alpha = fav.skills.iter().find(|s| s.name == "alpha").unwrap();
    assert_eq!(alpha.description, "A2 技能");
    assert_eq!(fav.skills.len(), 2);
}

#[test]
fn rebookmark_whole_repo_overwrites_snapshot() {
    let (mut reg, spec) = setup();
    bookmark(&mut reg, &spec, &scanned("A 技能", true), &vec![], "").unwrap();
    let (_key, n) = bookmark(&mut reg, &spec, &scanned("A 技能", false), &vec![], "").unwrap();
    assert_eq!(n, 1);
    let fav = reg.favorites.get("local/src").unwrap();
    assert_eq!(fav.skills.len(), 1);
    assert_eq!(fav.skills[0].name, "alpha");
}

#[test]
fn bookmark_unknown_skill_errors_and_writes_nothing() {
    let (mut reg, spec) = setup();
    let err = bookmark(&mut reg, &spec, &scanned("A 技能", true), &names(&["nope"]), "").unwrap_err();
    assert!(err.message().contains("仓库中无技能 nope"), "{:?}", err);
    assert_eq!(reg.favorites.len(), 0);
}

#[test]
fn unbookmark_single_then_cascade_when_empty() {
    let (mut reg, spec) = setup();
    bookmark(&mut reg, &spec, &scanned("A 技能", true), &vec![], "").unwrap();
    let n = unbookmark(&mut reg, "local/src", &names(&["alpha"])).unwrap();
    assert_eq!(n, 1);
    assert_eq!(reg.favorites.get("local/src").unwrap().skills.len(), 1);
    let n = unbookmark(&mut reg, "local/src", &names(&["beta"])).unwrap();
    assert_eq!(n, 1);
    assert!(!reg.favorites.contains_key("local/src"));
}

#[test]
fn unbookmark_whole_source_and_missing_errors() {
    let (mut reg, spec) = setup();
    bookmark(&mut reg, &spec, &scanned("A 技能", true), &vec![], "").unwrap();
    let n = unbookmark(&mut reg, "local/src", &vec![]).unwrap();
    assert_eq!(n, 2);
    assert_eq!(reg.favorites.len(), 0);
    assert!(matches!(
        unbookmark(&mut reg, "local/src", &vec![]),
        Err(Error::NotBookmarked(_))
    ));
    bookmark(&mut reg, &spec, &scanned("A 技能", true), &vec![], "").unwrap();
    assert!(matches!(
        unbookmark(&mut reg, "local/src", &names(&["nope"])),
        Err(Error::NotBookmarked(_))
    ));
    assert!(matches!(
        unbookmark(&mut reg, "local/src", &names(&["alpha", "nope"])),
        Err(Error::NotBookmarked(_))
    ));
    assert_eq!(reg.favorites.get("local/src").unwrap().skills.len(), 1);
}

#[test]
fn resolve_key_accepts_exact_key_or_source_expression() {
    let (mut reg, spec) = setup();
    bookmark(&mut reg, &spec, &scanned("A 技能", true), &vec![], "").unwrap();
    assert_eq!(resolve_key(&reg, "local/src").unwrap(), "local/src");
    assert_eq!(resolve_key(&reg, SRC).unwrap(), "local/src");
    assert!(matches!(
        resolve_key(&reg, "github/x/y"),
        Err(Error::NotBookmarked(_))
    ));
}

#[test]
fn single_skill_repo_detection() {
    let mut reg = Registry::empty();
    let solo_spec = parse_source("/tmp/fixture/solo").unwrap();
    let solo = vec![entry("---\nname: solo\ndescription: 单技能\n---\n", ".")];
    bookmark(&mut reg, &solo_spec, &solo, &vec![], "").unwrap();
    assert!(is_single_skill_repo(reg.favorites.get("local/solo").unwrap()));
    let (mut reg2, spec2) = setup();
    bookmark(&mut reg2, &spec2, &scanned("A 技能", true), &vec![], "").unwrap();
    assert!(!is_single_skill_repo(reg2.favorites.get("local/src").unwrap()));
}

#[test]
fn bookmark_records_commit_and_times() {
    let mut reg = Registry::empty();
    let spec = parse_source("o/r").unwrap();
    bookmark_at(
        &mut reg,
        &spec,
        &scanned("A 技能", true),
        &vec![],
        "c0ffee",
        "2026-01-02T00:00:00Z",
        "2026-01-03T00:00:00Z",
    )
    .unwrap();
    let fav = reg.favorites.get("github/o/r").unwrap();
    assert_eq!(fav.commit, "c0ffee");
    assert_eq!(fav.bookmarked_at, "2026-01-03T00:00:00Z");
    assert_eq!(fav.url.as_deref(), Some("https://github.com/o/r"));
    let src = reg.sources.get("github/o/r").unwrap();
    assert_eq!(src.fetched_at, "2026-01-02T00:00:00Z");
    assert_eq!(src.commit, "c0ffee");
    assert_eq!(src.auto_update, None);
}

#[test]
fn bookmark_stamps_a_current_time() {
    let (mut reg, spec) = setup();
    bookmark(&mut reg, &spec, &scanned("A 技能", true), &vec![], "").unwrap();
    let fav = reg.favorites.get("local/src").unwrap();
    assert!(fav.bookmarked_at.len() >= 20);
    assert!(fav.bookmarked_at.starts_with("20"));
}
