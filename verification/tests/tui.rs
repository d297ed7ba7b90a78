use skills::registry::{FavSkill, Favorite, Install, Method, Registry, TargetRec};
use skills::tui::{
    bookmark_picks, chosen_names, key_command, target_choices, Action, AppState, Command, FavPick,
    FavRow, Key, TuiView,
};

fn app_with(items: usize) -> AppState {
    let mut reg = Registry::empty();
    for i in 0..items {
        reg.installs.push(Install {
            skill: format!("s{i}"),
            source: "github/o/r".into(),
            source_path: format!("skills/s{i}"),
            target: TargetRec::Global {
                name: "agents".into(),
            },
            method: Method::Copy,
            commit: "c1".into(),
            tags: vec![],
            auto_update: None,
            installed_at: "t".into(),
        });
    }
    AppState::new(reg)
}

fn app_with_favorites() -> AppState {
    let mut reg = Registry::empty();
    reg.favorites.insert(
        "github/o/r".into(),
        Favorite {
            url: Some("https://github.com/o/r".into()),
            local_path: None,
            commit: "deadbeef".into(),
            bookmarked_at: "2026-08-25T10:00:00Z".into(),
            skills: vec![
                FavSkill {
                    name: "a".into(),
                    description: "A".into(),
                    source_path: "skills/a".into(),
                },
                FavSkill {
                    name: "b".into(),
                    description: "B".into(),
                    source_path: "skills/b".into(),
                },
            ],
        },
    );
    reg.favorites.insert(
        "local/solo".into(),
        Favorite {
            url: None,
            local_path: Some("/x/solo".into()),
            commit: String::new(),
            bookmarked_at: "2026-08-25T10:00:00Z".into(),
            skills: vec![FavSkill {
                name: "solo".into(),
                description: "单技能".into(),
                source_path: ".".into(),
            }],
        },
    );
    AppState::new(reg)
}

#[test]
fn tab_cycles_four_views() {
    let mut app = app_with(1);
    assert_eq!(app.view, TuiView::Installed);
    app.reduce(Action::NextView);
    app.reduce(Action::NextView);
    app.reduce(Action::NextView);
    assert_eq!(app.view, TuiView::Favorites);
    app.reduce(Action::NextView);
    assert_eq!(app.view, TuiView::Installed);
    app.reduce(Action::PrevView);
    assert_eq!(app.view, TuiView::Favorites);
}

#[test]
fn favorites_rows_flatten_two_levels() {
    let app = app_with_favorites();
    let rows = app.fav_rows();
    assert_eq!(
        rows,
        vec![
            FavRow::Source("github/o/r".into()),
            FavRow::Skill("github/o/r".into(), 0),
            FavRow::Skill("github/o/r".into(), 1),
            FavRow::Source("local/solo".into()),
        ]
    );
}

#[test]
fn favorites_navigation_clamps_per_view() {
    let mut app = app_with_favorites();
    app.view = TuiView::Favorites;
    for _ in 0..10 {
        app.reduce(Action::Down);
    }
    assert_eq!(app.selected, 3);
    app.reduce(Action::Up);
    assert_eq!(app.selected, 2);
    app.reduce(Action::NextView);
    assert_eq!(app.selected, 0);
}

#[test]
fn delete_fav_skill_row_then_source_row() {
    let mut app = app_with_favorites();
    app.view = TuiView::Favorites;
    app.selected = 1;
    app.reduce(Action::DeleteFav);
    let f = app.registry.favorites.get("github/o/r").unwrap();
    assert_eq!(f.skills.len(), 1);
    assert_eq!(f.skills[0].name, "b");
    assert!(app.selected < app.fav_rows().len());
    app.selected = 0;
    app.reduce(Action::DeleteFav);
    assert!(!app.registry.favorites.contains_key("github/o/r"));
    assert!(app.registry.favorites.contains_key("local/solo"));
    app.view = TuiView::Installed;
    app.reduce(Action::DeleteFav);
    assert!(app.registry.favorites.contains_key("local/solo"));
}

#[test]
fn navigation_wraps_and_clamps() {
    let mut app = app_with(3);
    assert_eq!(app.selected, 0);
    app.reduce(Action::Down);
    assert_eq!(app.selected, 1);
    app.reduce(Action::Down);
    app.reduce(Action::Down);
    assert_eq!(app.selected, 2);
    app.reduce(Action::Up);
    assert_eq!(app.selected, 1);
}

#[test]
fn toggle_auto_update_flips_selected_copy_install() {
    let mut app = app_with(2);
    app.reduce(Action::ToggleAutoUpdate);
    assert_eq!(app.registry.installs[0].auto_update, Some(true));
    app.reduce(Action::ToggleAutoUpdate);
    assert_eq!(app.registry.installs[0].auto_update, Some(false));
    app.reduce(Action::ToggleAutoUpdate);
    assert_eq!(app.registry.installs[0].auto_update, None);
}

#[test]
fn four_tabs_return_and_shift_tab_undoes_tab() {
    let mut app = app_with(1);
    for _ in 0..4 {
        app.reduce(Action::NextView);
    }
    assert_eq!(app.view, TuiView::Installed);
    app.reduce(Action::NextView);
    app.reduce(Action::PrevView);
    assert_eq!(app.view, TuiView::Installed);
}

#[test]
fn keys_map_to_commands_per_view() {
    assert_eq!(key_command(Key::Char('i'), TuiView::Installed), Command::InstallFromSource);
    assert_eq!(key_command(Key::Char('i'), TuiView::Favorites), Command::InstallFromFavorite);
    assert_eq!(key_command(Key::Char('f'), TuiView::Favorites), Command::Bookmark);
    assert_eq!(key_command(Key::Char('f'), TuiView::Installed), Command::Ignore);
    assert_eq!(key_command(Key::Esc, TuiView::Sources), Command::Quit);
    assert_eq!(key_command(Key::Char('q'), TuiView::Sources), Command::Quit);
    assert_eq!(key_command(Key::Char('j'), TuiView::Installed), Command::Apply(Action::Down));
    assert_eq!(key_command(Key::Up, TuiView::Installed), Command::Apply(Action::Up));
    assert_eq!(key_command(Key::BackTab, TuiView::Installed), Command::Apply(Action::PrevView));
    assert_eq!(key_command(Key::Char('a'), TuiView::Installed), Command::Apply(Action::ToggleAutoUpdate));
    assert_eq!(key_command(Key::Char('d'), TuiView::Favorites), Command::Apply(Action::DeleteFav));
    assert_eq!(key_command(Key::Other, TuiView::Favorites), Command::Ignore);
}

#[test]
fn wizard_targets_are_globals_then_the_project() {
    let cfg = skills::config::Config::defaults(&Some("/home/u".to_string()));
    let choices = target_choices(&cfg.targets, "/work/p");
    let labels: Vec<&str> = choices.iter().map(|c| c.0.as_str()).collect();
    assert_eq!(labels, vec!["global:agents", "global:codex", "project:/work/p"]);
    assert_eq!(
        choices[2].1,
        skills::paths::Target::Project {
            root: "/work/p".into()
        }
    );
}

#[test]
fn picking_every_skill_bookmarks_the_whole_repo() {
    let names = vec!["a".to_string(), "b".to_string()];
    assert!(bookmark_picks(&names, &vec![0, 1]).is_empty());
    assert_eq!(bookmark_picks(&names, &vec![1]), vec!["b".to_string()]);
    assert_eq!(chosen_names(&names, &vec![1, 0]), vec!["b".to_string(), "a".to_string()]);
}

#[test]
fn favorite_rows_pick_what_to_install() {
    let mut app = app_with_favorites();
    app.view = TuiView::Favorites;
    app.selected = 2;
    match app.fav_pick() {
        FavPick::Skills(k, v) => {
            assert_eq!(k, "github/o/r");
            assert_eq!(v, vec!["b".to_string()]);
        }
        _ => panic!("expected a skill row"),
    }
    app.selected = 0;
    match app.fav_pick() {
        FavPick::Ask(k, v) => {
            assert_eq!(k, "github/o/r");
            assert_eq!(v, vec!["a".to_string(), "b".to_string()]);
        }
        _ => panic!("expected a choice"),
    }
    app.selected = 3;
    match app.fav_pick() {
        FavPick::Skills(k, v) => {
            assert_eq!(k, "local/solo");
            assert_eq!(v, vec!["solo".to_string()]);
        }
        _ => panic!("expected the single skill"),
    }
    app.selected = 4;
    assert!(matches!(app.fav_pick(), FavPick::Nothing));
}

#[test]
fn view_cells_show_what_the_rows_hold() {
    let mut app = app_with(1);
    app.registry.installs[0].tags = vec!["a".into(), "b".into()];
    app.registry.installs[0].auto_update = Some(false);
    assert_eq!(
        skills::tui::install_cells(&app.registry.installs[0]),
        vec!["s0", "Copy", "Global { name: \"agents\" }", "a,b", "关"]
    );
    let fav = app_with_favorites();
    assert_eq!(
        skills::tui::fav_cells(&fav.registry, &FavRow::Source("github/o/r".into())),
        Some(vec!["github/o/r".to_string(), "2 个技能".to_string(), "2026-08-25".to_string()])
    );
    assert_eq!(
        skills::tui::fav_cells(&fav.registry, &FavRow::Source("local/solo".into())),
        Some(vec!["local/solo".to_string(), "单技能".to_string(), "2026-08-25".to_string()])
    );
    assert_eq!(
        skills::tui::fav_cells(&fav.registry, &FavRow::Skill("github/o/r".into(), 1)),
        Some(vec!["  b".to_string(), "B".to_string(), String::new()])
    );
    assert_eq!(skills::tui::fav_cells(&fav.registry, &FavRow::Skill("github/o/r".into(), 5)), None);
    let rec = skills::registry::SourceRecord {
        url: "u".into(),
        commit: "0123456789".into(),
        fetched_at: "t".into(),
        auto_update: Some(true),
    };
    assert_eq!(
        skills::tui::source_line("github/o/r", &rec),
        "github/o/r\t0123456\tauto_update=Some(true)\n"
    );
}
