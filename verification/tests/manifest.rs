use skills::manifest::{
    baseline_of, checked_relative_path, content_digest, forward_slash_relative, local_modifications, Baseline,
};
use skills::strmap::StrMap;

fn baseline(entries: &[(&str, &[u8])]) -> (StrMap<String>, Vec<Option<Vec<u8>>>) {
    let mut m = StrMap::new();
    let mut contents = Vec::new();
    for (rel, bytes) in entries {
        m.insert(rel.to_string(), content_digest(&bytes.to_vec()));
    }
    for i in 0..m.len() {
        let rel = m.key_at(i).clone();
        let bytes = entries.iter().find(|e| e.0 == rel).unwrap().1;
        contents.push(Some(bytes.to_vec()));
    }
    (m, contents)
}

#[test]
fn digest_is_lowercase_hex_sha256() {
    assert_eq!(
        content_digest(&b"abc".to_vec()),
        "ba7816bf8f01cfea414140de5dae2223b00361a396177a9cb410ff61f20015ad"
    );
    assert_eq!(content_digest(&Vec::new()).len(), 64);
}

#[test]
fn written_manifest_detects_clean_then_flags_each_divergence_class() {
    let (m, contents) = baseline(&[("SKILL.md", b"v1\n"), ("docs/deep.md", b"deep\n")]);
    let files = vec!["SKILL.md".to_string(), "docs/deep.md".to_string()];
    let b = Baseline::Files(m);
    assert_eq!(local_modifications(&b, &contents, &files), Vec::<String>::new());

    // the order of `contents` follows the keys: SKILL.md, docs/deep.md
    let mut edited = contents.clone();
    edited[0] = Some(b"edited\n".to_vec());
    assert_eq!(
        local_modifications(&b, &edited, &files),
        vec!["内容被修改: SKILL.md".to_string()]
    );

    let mut missing = contents.clone();
    missing[1] = None;
    assert_eq!(
        local_modifications(&b, &missing, &vec!["SKILL.md".to_string()]),
        vec!["文件缺失: docs/deep.md".to_string()]
    );

    let mut more = files.clone();
    more.push("notes.txt".to_string());
    assert_eq!(
        local_modifications(&b, &contents, &more),
        vec!["副本内新增: notes.txt（更新后将被删除）".to_string()]
    );
}

#[test]
fn missing_or_legacy_manifest_reports_no_baseline() {
    let lines = local_modifications(&Baseline::Absent, &vec![], &vec![]);
    assert!(lines[0].contains("无校验基线"), "{:?}", lines);
    let lines = local_modifications(&Baseline::NoFiles, &vec![], &vec![]);
    assert!(lines[0].contains("无校验基线"), "{:?}", lines);
}

#[test]
fn illegal_baseline_paths_are_reported_not_read() {
    let mut m = StrMap::new();
    m.insert("../escape".to_string(), "x".to_string());
    m.insert("/abs".to_string(), "y".to_string());
    let b = Baseline::Files(m);
    let lines = local_modifications(&b, &vec![None, None], &vec![]);
    assert_eq!(
        lines,
        vec![
            "基线条目含非法路径: ../escape".to_string(),
            "基线条目含非法路径: /abs".to_string()
        ]
    );
}

#[test]
fn added_files_are_listed_sorted() {
    let (m, contents) = baseline(&[("a", b"1")]);
    let b = Baseline::Files(m);
    let files = vec!["z.txt".to_string(), "a".to_string(), "m/n.txt".to_string()];
    assert_eq!(
        local_modifications(&b, &contents, &files),
        vec![
            "副本内新增: m/n.txt（更新后将被删除）".to_string(),
            "副本内新增: z.txt（更新后将被删除）".to_string()
        ]
    );
}

#[test]
fn relative_paths_are_checked_and_joined_with_slashes() {
    assert!(checked_relative_path("docs/deep.md"));
    assert!(checked_relative_path("a/./b"));
    assert!(!checked_relative_path("../x"));
    assert!(!checked_relative_path("a/../x"));
    assert!(!checked_relative_path("/etc/passwd"));
    assert!(!checked_relative_path("./a"));
    assert_eq!(forward_slash_relative("docs//deep.md").unwrap(), "docs/deep.md");
    assert_eq!(forward_slash_relative("a/./b/").unwrap(), "a/b");
    assert_eq!(
        forward_slash_relative("../x").unwrap_err().message(),
        "副本内含非法路径组件: ../x"
    );
}

#[test]
fn baseline_reads_the_files_table_of_the_manifest() {
    assert!(matches!(baseline_of(None), Baseline::Absent));
    assert!(matches!(baseline_of(Some("not json")), Baseline::NoFiles));
    assert!(matches!(baseline_of(Some("{\"version\":1}")), Baseline::NoFiles));
    assert!(matches!(baseline_of(Some("{\"files\":[1]}")), Baseline::NoFiles));
    match baseline_of(Some("{\"files\":{\"b.md\":\"d2\",\"a.md\":\"d1\"}}")) {
        Baseline::Files(m) => {
            assert_eq!(m.len(), 2);
            assert_eq!(m.key_at(0), "a.md");
            assert_eq!(m.get("a.md").unwrap(), "d1");
            assert_eq!(m.get("b.md").unwrap(), "d2");
        }
        _ => panic!("no files table"),
    }
}
