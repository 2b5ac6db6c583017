use ren::config::{apply_to_env, resolve_path, Config, Origin};
use ren::path::PathName;

fn path(text: &str) -> Option<PathName> {
    Some(PathName::from_text(text))
}

fn taken(names: &[&str]) -> Vec<String> {
    names.iter().map(|s| s.to_string()).collect()
}

#[test]
fn an_origin_knows_what_was_marked() {
    let mut origin = Origin::default();
    assert!(!origin.is_config_derived("REN_LOWER"));
    origin.mark_as_config_derived("REN_LOWER");
    origin.mark_as_config_derived("REN_LOWER");
    assert!(origin.is_config_derived("REN_LOWER"));
    assert!(!origin.is_config_derived("REN_UPPER"));
    assert_eq!(origin.synthesized(), vec!["REN_LOWER"]);
}

#[test]
fn settings_become_variables() {
    let cfg = Config {
        hidden: Some(true),
        lower: Some(false),
        prepend: Some("{N}_".to_string()),
        ..Config::default()
    };
    let mut origin = Origin::default();
    let out: Vec<(String, String)> = apply_to_env(&cfg, &Vec::new(), &mut origin)
        .into_iter()
        .map(|a| (a.key, a.value))
        .collect();
    assert_eq!(
        out,
        vec![
            ("REN_HIDDEN".to_string(), "true".to_string()),
            ("REN_LOWER".to_string(), "false".to_string()),
            ("REN_PREPEND".to_string(), "{N}_".to_string()),
        ]
    );
    assert!(origin.is_config_derived("REN_PREPEND"));
}

#[test]
fn every_setting_has_a_variable() {
    let cfg = Config {
        hidden: Some(true),
        no_ignore: Some(true),
        recursive: Some(true),
        include_dirs: Some(true),
        include_extension: Some(true),
        only_extension: Some(true),
        greedy: Some(true),
        ignore_case: Some(true),
        regex: Some(true),
        word_regexp: Some(true),
        smart: Some(true),
        lower: Some(true),
        upper: Some(true),
        prepend: Some("p".to_string()),
        append: Some("a".to_string()),
        dry_run: Some(true),
        preview: Some(true),
        create_dirs: Some(true),
    };
    let keys: Vec<String> = apply_to_env(&cfg, &Vec::new(), &mut Origin::default())
        .into_iter()
        .map(|a| a.key)
        .collect();
    assert_eq!(
        keys,
        vec![
            "REN_HIDDEN",
            "REN_NO_IGNORE",
            "REN_RECURSIVE",
            "REN_INCLUDE_DIRS",
            "REN_INCLUDE_EXTENSION",
            "REN_ONLY_EXTENSION",
            "REN_GREEDY",
            "REN_IGNORE_CASE",
            "REN_REGEX",
            "REN_WORD_REGEXP",
            "REN_SMART",
            "REN_LOWER",
            "REN_UPPER",
            "REN_PREPEND",
            "REN_APPEND",
            "REN_DRY_RUN",
            "REN_PREVIEW",
            "REN_CREATE_DIRS",
        ]
    );
}

#[test]
fn the_environment_wins_over_the_file() {
    let cfg = Config {
        lower: Some(true),
        upper: Some(true),
        ..Config::default()
    };
    let mut origin = Origin::default();
    let out = apply_to_env(&cfg, &taken(&["REN_UPPER", "HOME"]), &mut origin);
    assert_eq!(out.len(), 1);
    assert_eq!(out[0].key, "REN_LOWER");
    assert!(origin.is_config_derived("REN_LOWER"));
    assert!(!origin.is_config_derived("REN_UPPER"));
    assert!(apply_to_env(&Config::default(), &Vec::new(), &mut origin).is_empty());
}

#[test]
fn the_file_is_looked_for_in_order() {
    assert_eq!(resolve_path(path("/c.toml"), path("/x"), path("/h")), path("/c.toml"));
    assert_eq!(resolve_path(path(""), path("/x"), path("/h")), None);
    assert_eq!(
        resolve_path(None, path("/x"), path("/h")),
        path("/x/ren/config.toml")
    );
    assert_eq!(
        resolve_path(None, path(""), path("/h")),
        path("/h/.config/ren/config.toml")
    );
    assert_eq!(
        resolve_path(None, None, path("/h/")),
        path("/h/.config/ren/config.toml")
    );
    assert_eq!(resolve_path(None, None, None), None);
}
