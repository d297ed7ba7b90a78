use skills::config::Scalar;
use skills::config_doc::{config_get, config_set, config_write_check, split_text, targets_add, targets_remove, DocNode};

fn empty() -> DocNode {
    DocNode::Table(Vec::new())
}

fn message(e: skills::error::Error) -> String {
    e.message()
}

#[test]
fn dotted_keys_split_at_every_dot() {
    assert_eq!(split_text("web.port", '.'), vec!["web".to_string(), "port".to_string()]);
    assert_eq!(split_text("a..b", '.'), vec!["a".to_string(), String::new(), "b".to_string()]);
    assert_eq!(split_text("plain", '.'), vec!["plain".to_string()]);
    assert_eq!(split_text("", '.'), vec![String::new()]);
}

#[test]
fn set_then_get_reads_back_the_value() {
    let doc = config_set(empty(), "web.port", Scalar::Integer(9000)).unwrap();
    let got = config_get(&doc, "web.port").unwrap();
    assert!(matches!(got, DocNode::Written(Scalar::Integer(9000))));
    assert!(matches!(config_get(&doc, "web").unwrap(), DocNode::Table(e) if e.len() == 1));
}

#[test]
fn set_overwrites_and_keeps_neighbours() {
    let doc = DocNode::Table(vec![(
        "defaults".to_string(),
        DocNode::Table(vec![("method".to_string(), DocNode::Kept(0)), ("other".to_string(), DocNode::Kept(1))]),
    )]);
    let doc = config_set(doc, "defaults.method", Scalar::Str("copy".to_string())).unwrap();
    assert!(matches!(config_get(&doc, "defaults.method").unwrap(), DocNode::Written(Scalar::Str(s)) if s == "copy"));
    assert!(matches!(config_get(&doc, "defaults.other").unwrap(), DocNode::Kept(1)));
    match config_get(&doc, "defaults").unwrap() {
        DocNode::Table(e) => assert_eq!(e.len(), 2),
        other => panic!("not a table: {other:?}"),
    }
}

#[test]
fn set_refuses_a_value_standing_on_the_way() {
    let doc = DocNode::Table(vec![("web".to_string(), DocNode::Kept(0))]);
    let err = config_set(doc, "web.port", Scalar::Integer(1)).unwrap_err();
    assert_eq!(message(err), "配置路径被非表值占用: web.port");
}

#[test]
fn set_refuses_a_document_that_is_not_a_table() {
    let err = config_set(DocNode::Kept(0), "a", Scalar::Boolean(true)).unwrap_err();
    assert_eq!(message(err), "config.toml 顶层不是表");
}

#[test]
fn set_may_replace_a_leaf_by_the_last_step() {
    let doc = DocNode::Table(vec![("web".to_string(), DocNode::Kept(0))]);
    let doc = config_set(doc, "web", Scalar::Boolean(false)).unwrap();
    assert!(matches!(config_get(&doc, "web").unwrap(), DocNode::Written(Scalar::Boolean(false))));
}

#[test]
fn get_reports_missing_keys() {
    let doc = DocNode::Table(vec![("web".to_string(), DocNode::Kept(0))]);
    assert_eq!(message(config_get(&doc, "web.port").unwrap_err()), "配置项不存在: web.port");
    assert_eq!(message(config_get(&doc, "nope").unwrap_err()), "配置项不存在: nope");
    assert!(matches!(config_get(&doc, "web").unwrap(), DocNode::Kept(0)));
}

#[test]
fn targets_add_then_remove() {
    let doc = targets_add(empty(), "cursor", "/x/skills".to_string()).unwrap();
    assert!(matches!(config_get(&doc, "targets.cursor").unwrap(), DocNode::Written(Scalar::Str(s)) if s == "/x/skills"));
    let doc = targets_remove(doc, "cursor");
    assert_eq!(message(config_get(&doc, "targets.cursor").unwrap_err()), "配置项不存在: targets.cursor");
    assert!(matches!(config_get(&doc, "targets").unwrap(), DocNode::Table(e) if e.is_empty()));
}

#[test]
fn targets_add_refuses_a_targets_value_that_is_not_a_table() {
    let doc = DocNode::Table(vec![("targets".to_string(), DocNode::Kept(3))]);
    assert_eq!(message(targets_add(doc, "x", "/p".to_string()).unwrap_err()), "config.targets 不是表");
    assert_eq!(
        message(targets_add(DocNode::Kept(0), "x", "/p".to_string()).unwrap_err()),
        "config.toml 顶层不是表"
    );
}

#[test]
fn targets_remove_of_unknown_name_changes_nothing() {
    let doc = DocNode::Table(vec![(
        "targets".to_string(),
        DocNode::Table(vec![("agents".to_string(), DocNode::Kept(0))]),
    )]);
    let doc = targets_remove(doc, "cursor");
    assert!(matches!(config_get(&doc, "targets.agents").unwrap(), DocNode::Kept(0)));
    let doc = targets_remove(DocNode::Kept(5), "agents");
    assert!(matches!(doc, DocNode::Kept(5)));
}

#[test]
fn a_loadable_config_must_stay_loadable() {
    assert!(config_write_check("targets.x", "123", false, Err(skills::error::Error::Toml("bad".into()))).is_ok());
    assert!(config_write_check("web.port", "9000", true, Ok(())).is_ok());
    let err = config_write_check("targets.x", "123", true, Err(skills::error::Error::Toml("bad".into()))).unwrap_err();
    assert_eq!(message(err), "拒绝写入 targets.x=\"123\"：会导致配置无法解析（toml: bad）");
}
