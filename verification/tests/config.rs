use dtk_pal::config::{project_dir_from_config_dir, Config, ConfigError};

#[test]
fn project_dir_is_two_levels_up() {
    assert_eq!(project_dir_from_config_dir("proj/config/GLME01"), Ok("proj".to_string()));
    assert_eq!(project_dir_from_config_dir("/home/u/proj/config/GLME01"), Ok("/home/u/proj".to_string()));
    assert_eq!(project_dir_from_config_dir("config/GLME01"), Ok(String::new()));
}

#[test]
fn no_project_dir() {
    assert_eq!(project_dir_from_config_dir(""), Err(ConfigError::NoProjectDir(String::new())));
    assert_eq!(project_dir_from_config_dir("GLME01"), Err(ConfigError::NoProjectDir("GLME01".to_string())));
    assert_eq!(project_dir_from_config_dir("/"), Err(ConfigError::NoProjectDir("/".to_string())));
}

#[test]
fn file_paths_inside_the_project() {
    let config = Config { symbols: "config/GLME01/symbols.txt".to_string(), splits: "config//GLME01/splits.txt".to_string() };
    assert_eq!(config.symbols_path("proj/config/GLME01"), Ok("proj/config/GLME01/symbols.txt".to_string()));
    assert_eq!(config.splits_path("proj/config/GLME01"), Ok("proj/config/GLME01/splits.txt".to_string()));
    assert_eq!(config.symbols_path("config/GLME01"), Ok("config/GLME01/symbols.txt".to_string()));
    assert_eq!(config.symbols_path("x"), Err(ConfigError::NoProjectDir("x".to_string())));
}

#[test]
fn rooted_config_dirs() {
    assert_eq!(project_dir_from_config_dir("/a/b"), Ok("/".to_string()));
    assert_eq!(project_dir_from_config_dir("/a"), Err(ConfigError::NoProjectDir("/a".to_string())));
    let config = Config { symbols: "config/GLME01/symbols.txt".to_string(), splits: "config/GLME01/splits.txt".to_string() };
    assert_eq!(config.splits_path("/home/u/proj/config/GLME01"), Ok("/home/u/proj/config/GLME01/splits.txt".to_string()));
    assert_eq!(config.symbols_path("/proj/config"), Ok("//config/GLME01/symbols.txt".to_string()));
}

#[test]
fn config_dirs_with_dots_and_extra_separators() {
    assert_eq!(project_dir_from_config_dir("proj/config/GLME01/"), Ok("proj".to_string()));
    assert_eq!(project_dir_from_config_dir("a//b/c"), Ok("a".to_string()));
    assert_eq!(project_dir_from_config_dir("./x/y"), Ok(".".to_string()));
    assert_eq!(project_dir_from_config_dir("a/./b/c/."), Ok("a".to_string()));
    assert_eq!(project_dir_from_config_dir("x/"), Err(ConfigError::NoProjectDir("x/".to_string())));
    let config = Config { symbols: "config/GLME01/symbols.txt".to_string(), splits: "config/GLME01/splits.txt".to_string() };
    assert_eq!(config.splits_path("proj/config/GLME01/"), Ok("proj/config/GLME01/splits.txt".to_string()));
}

#[test]
fn config_dirs_with_spaces_and_other_characters() {
    assert_eq!(project_dir_from_config_dir("my proj/config/GLME01"), Ok("my proj".to_string()));
    assert_eq!(project_dir_from_config_dir("/home/José/proj/config/X"), Ok("/home/José/proj".to_string()));
    let e = project_dir_from_config_dir("a b").unwrap_err();
    assert_eq!(e.message(), format!("failed to determine project directory for {:?}", "a b"));
}
