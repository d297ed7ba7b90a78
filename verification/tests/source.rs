use skills::source::parse_source;

#[test]
fn github_shorthand_expands() {
    let s = parse_source("mattpocock/skills").unwrap();
    assert_eq!(s.key, "github/mattpocock/skills");
    assert_eq!(
        s.url.as_deref(),
        Some("https://github.com/mattpocock/skills")
    );
    assert!(s.local_path.is_none());
}

#[test]
fn github_https_url() {
    let s = parse_source("https://github.com/mattpocock/skills").unwrap();
    assert_eq!(s.key, "github/mattpocock/skills");
}

#[test]
fn github_https_url_with_git_suffix_and_trailing_slash() {
    let s = parse_source("https://github.com/a/b.git/").unwrap();
    assert_eq!(s.key, "github/a/b");
    assert_eq!(s.url.as_deref(), Some("https://github.com/a/b"));
}

#[test]
fn ssh_url() {
    let s = parse_source("git@github.com:a/b.git").unwrap();
    assert_eq!(s.key, "github/a/b");
    assert_eq!(s.url.as_deref(), Some("git@github.com:a/b.git"));
}

#[test]
fn non_github_host() {
    let s = parse_source("https://gitlab.com/org/repo").unwrap();
    assert_eq!(s.key, "gitlab.com/org/repo");
}

#[test]
fn local_absolute_path() {
    let p = "/tmp/myskill";
    let s = parse_source(p).unwrap();
    assert!(s.key.starts_with("local/"));
    assert!(s.url.is_none());
    assert_eq!(s.local_path.as_deref(), Some(p));
}

#[test]
fn file_url_supported_for_local_bare_repos() {
    let s = parse_source("file:///tmp/repos/bare.git").unwrap();
    assert_eq!(s.key, "file/repos/bare");
    assert_eq!(s.url.as_deref(), Some("file:///tmp/repos/bare.git"));
    assert!(s.local_path.is_none());
}

#[test]
fn rejects_empty_and_single_word() {
    assert!(parse_source("").is_err());
    assert!(parse_source("noslash").is_err());
}
