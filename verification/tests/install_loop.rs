use skills::commands::{
    conflict_reply_text, install_loop_step, web_install_step, wizard_install_step, WebInstallStep, installed_text, overwrite_question_text, overwritten_text,
    removal_pairs, Attempt, LoopEvent, LoopStep,
};
use skills::error::Error;
use skills::paths::Target;
use skills::registry::{Install, Method, Registry, TargetRec};

fn agents() -> Target {
    Target::Global { name: "agents".into() }
}

#[test]
fn an_install_is_saved_with_its_line() {
    match install_loop_step("alpha", &agents(), Method::Copy, false, LoopEvent::Attempted(Attempt::Installed)) {
        LoopStep::Save(Some(l)) => assert_eq!(l, "已安装 alpha → Global { name: \"agents\" } (Copy)"),
        _ => panic!("not saved"),
    }
    let p = Target::Project { root: "/w/p".into() };
    assert_eq!(
        installed_text("beta", &p, Method::Symlink),
        "已安装 beta → Project { root: \"/w/p\" } (Symlink)"
    );
    assert_eq!(
        overwritten_text("beta", &p, Method::Copy),
        "已覆盖安装 beta → Project { root: \"/w/p\" } (Copy)"
    );
}

#[test]
fn a_conflict_is_skipped_with_yes_and_asked_without() {
    match install_loop_step("a", &agents(), Method::Copy, true, LoopEvent::Attempted(Attempt::Conflict("/t/a".into()))) {
        LoopStep::Next(Some(l)) => assert_eq!(l, "跳过已存在: \"/t/a\""),
        _ => panic!("not skipped"),
    }
    match install_loop_step("a", &agents(), Method::Copy, false, LoopEvent::Attempted(Attempt::Conflict("/t/a".into()))) {
        LoopStep::Ask(q) => assert_eq!(q, "\"/t/a\" 已存在，覆盖？"),
        _ => panic!("not asked"),
    }
    assert!(matches!(
        install_loop_step("a", &agents(), Method::Copy, false, LoopEvent::Answered(true)),
        LoopStep::Retry
    ));
    assert!(matches!(
        install_loop_step("a", &agents(), Method::Copy, false, LoopEvent::Answered(false)),
        LoopStep::Next(None)
    ));
}

#[test]
fn a_retry_that_fails_stops_the_loop() {
    match install_loop_step("a", &agents(), Method::Copy, false, LoopEvent::Retried(Attempt::Conflict("/t/a".into()))) {
        LoopStep::Stop(Error::Conflict(p)) => assert_eq!(p, "/t/a"),
        _ => panic!("not stopped"),
    }
    match install_loop_step("a", &agents(), Method::Copy, true, LoopEvent::Attempted(Attempt::Failed(Error::Msg("x".into())))) {
        LoopStep::Stop(Error::Msg(m)) => assert_eq!(m, "x"),
        _ => panic!("not stopped"),
    }
    assert!(matches!(
        install_loop_step("a", &agents(), Method::Copy, false, LoopEvent::Retried(Attempt::Installed)),
        LoopStep::Save(None)
    ));
}

#[test]
fn paths_are_quoted_as_paths() {
    assert_eq!(overwrite_question_text("/t/it's"), "\"/t/it's\" 已存在，覆盖？");
    assert_eq!(conflict_reply_text("/t/a"), "\"/t/a\" 已存在");
}

#[test]
fn removal_treats_two_spellings_of_a_root_as_one_pair() {
    let mut reg = Registry::empty();
    reg.installs.push(Install {
        skill: "alpha".into(),
        source: "github/o/r".into(),
        source_path: "skills/alpha".into(),
        target: TargetRec::Project { root: "/x".into() },
        method: Method::Copy,
        commit: "c1".into(),
        tags: vec!["t".into()],
        auto_update: None,
        installed_at: "t".into(),
    });
    let pairs = removal_pairs(
        &reg,
        &Some("t".into()),
        &vec!["alpha".into()],
        &vec!["project:/x/".into()],
    )
    .unwrap();
    assert_eq!(pairs.len(), 1);
}

#[test]
fn the_wizard_reports_overwrites_and_skips() {
    let t = agents();
    match wizard_install_step("a", &t, Method::Copy, LoopEvent::Retried(Attempt::Installed)) {
        LoopStep::Next(Some(l)) => assert_eq!(l, "已覆盖安装 a → Global { name: \"agents\" } (Copy)"),
        _ => panic!("no line"),
    }
    match wizard_install_step("a", &t, Method::Copy, LoopEvent::Answered(false)) {
        LoopStep::Next(Some(l)) => assert_eq!(l, "跳过 a"),
        _ => panic!("no line"),
    }
    assert!(matches!(
        wizard_install_step("a", &t, Method::Copy, LoopEvent::Attempted(Attempt::Conflict("/t/a".into()))),
        LoopStep::Ask(_)
    ));
}

#[test]
fn the_web_install_answers_conflicts_and_failures() {
    match web_install_step(false, LoopEvent::Attempted(Attempt::Conflict("/t/a".into()))) {
        WebInstallStep::Reply(c, m) => {
            assert_eq!(c, 409);
            assert_eq!(m, "\"/t/a\" 已存在");
        }
        other => panic!("{other:?}"),
    }
    assert!(matches!(
        web_install_step(true, LoopEvent::Attempted(Attempt::Conflict("/t/a".into()))),
        WebInstallStep::Retry
    ));
    match web_install_step(false, LoopEvent::Attempted(Attempt::Failed(Error::NotBookmarked("k".into())))) {
        WebInstallStep::Reply(c, m) => {
            assert_eq!(c, 404);
            assert_eq!(m, "k");
        }
        other => panic!("{other:?}"),
    }
    match web_install_step(true, LoopEvent::Retried(Attempt::Failed(Error::Msg("boom".into())))) {
        WebInstallStep::Reply(c, m) => {
            assert_eq!(c, 500);
            assert_eq!(m, "覆盖安装失败: boom");
        }
        other => panic!("{other:?}"),
    }
    assert!(matches!(web_install_step(false, LoopEvent::Retried(Attempt::Installed)), WebInstallStep::Save));
}
