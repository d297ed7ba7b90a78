use skills::config::{default_global_target, scalar, validate_config_set, Config, Scalar};
use skills::paths::Target;
use skills::registry::Method;
use skills::strmap::StrMap;

fn home() -> Option<String> {
    Some("/home/u".to_string())
}

#[test]
fn no_config_file_uses_builtin_defaults() {
    let cfg = Config::defaults(&home());
    assert!(cfg.targets.contains_key("agents"));
    assert_eq!(cfg.web_port, 7823);
    assert_eq!(cfg.default_method, Method::Symlink);
}

#[test]
fn config_file_overrides_and_extends() {
    let mut cfg = Config::defaults(&home());
    cfg.apply_file(
        Some(Method::Copy),
        Some(9000),
        vec![("cursor".to_string(), "~/.cursor/skills".to_string())],
        &home(),
    );
    assert_eq!(cfg.default_method, Method::Copy);
    assert_eq!(cfg.web_port, 9000);
    assert!(cfg.targets.contains_key("cursor"));
    assert!(cfg.targets.contains_key("agents"));
}

#[test]
fn tilde_expands_in_targets() {
    let mut cfg = Config::defaults(&home());
    cfg.apply_file(
        None,
        None,
        vec![("cursor".to_string(), "~/.cursor/skills".to_string())],
        &home(),
    );
    let p = cfg.targets.get("cursor").unwrap();
    assert!(!p.contains('~'));
    assert!(p.starts_with('/'));
    assert_eq!(p, "/home/u/.cursor/skills");
}

#[test]
fn builtin_targets_live_under_home() {
    let cfg = Config::defaults(&home());
    assert_eq!(cfg.targets.get("agents").unwrap(), "/home/u/.agents/skills");
    assert_eq!(cfg.targets.get("codex").unwrap(), "/home/u/.codex/skills");
    assert_eq!(cfg.targets.len(), 2);
}

#[test]
fn default_global_target_picks_first_configured() {
    let cfg = Config::defaults(&home());
    let t = default_global_target(&cfg).unwrap();
    assert_eq!(
        t,
        Target::Global {
            name: "agents".into()
        }
    );
}

#[test]
fn default_global_target_errors_when_targets_empty() {
    let mut cfg = Config::defaults(&home());
    cfg.targets = StrMap::new();
    let err = default_global_target(&cfg).unwrap_err();
    assert!(err.message().contains("没有可用的全局 target"), "{:?}", err);
}

#[test]
fn validate_config_set_rejects_bad_known_scalars() {
    assert!(validate_config_set("web.port", "99999").is_err());
    assert!(validate_config_set("web.port", "-1").is_err());
    assert!(validate_config_set("web.port", "abc").is_err());
    assert!(validate_config_set("web.port", "9000").is_ok());
    assert!(validate_config_set("defaults.method", "foo").is_err());
    assert!(validate_config_set("defaults.method", "symlink").is_ok());
    assert!(validate_config_set("defaults.method", "copy").is_ok());
    assert!(validate_config_set("targets.x", "123").is_ok());
}

#[test]
fn validate_config_set_messages_quote_the_value() {
    let e = validate_config_set("web.port", "abc").unwrap_err();
    assert_eq!(e.message(), "web.port 必须是 0-65535 的整数，收到: \"abc\"");
    let e = validate_config_set("defaults.method", "foo").unwrap_err();
    assert_eq!(e.message(), "defaults.method 只接受 symlink 或 copy，收到: \"foo\"");
}

#[test]
fn scalar_infers_integer_bool_or_string() {
    assert_eq!(scalar("9000"), Scalar::Integer(9000));
    assert_eq!(scalar("-3"), Scalar::Integer(-3));
    assert_eq!(scalar("true"), Scalar::Boolean(true));
    assert_eq!(scalar("false"), Scalar::Boolean(false));
    assert_eq!(scalar("copy"), Scalar::Str("copy".to_string()));
    assert_eq!(scalar("99999999999999999999"), Scalar::Str("99999999999999999999".to_string()));
}
