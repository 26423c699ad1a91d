use std::path::{Component, Path};

use snob_core::paths::{
    app_dir_name, is_safe_to_remove, AppPaths, Location, PathError, UserDirs,
};
use snob_core::watch::config;

fn location(text: &str) -> Location {
    let mut root = String::new();
    let mut names = Vec::new();
    for part in Path::new(text).components() {
        match part {
            Component::RootDir => root.push('/'),
            other => names.push(other.as_os_str().to_string_lossy().into_owned()),
        }
    }
    Location { root, names }
}

/// The directories of a user whose platform keeps theirs there.
fn discovered(config: Location, local_data: Location, roaming_data: Location) -> AppPaths {
    match AppPaths::discover(Some(UserDirs { config, local_data, roaming_data })) {
        Ok(paths) => paths,
        Err(e) => panic!("{}", e.to_string()),
    }
}

#[test]
fn without_a_home_there_are_no_directories() {
    assert!(matches!(AppPaths::discover(None), Err(PathError::NoHome)));
}

#[test]
fn only_the_data_directory_is_created() {
    let paths = AppPaths::rooted_at(location("/tmp/test"));
    let created = paths.ensure_dirs();

    assert!(created.iter().any(|dir| dir.same(paths.data_dir())));
    assert!(
        !created.iter().any(|dir| dir.same(paths.config_dir())),
        "the directory belongs to whatever writes configuration, not to every run"
    );
    assert_eq!(created.len(), 1);
}

#[test]
fn files_hang_off_their_directories() {
    let paths = AppPaths::rooted_at(location("/tmp/test"));
    assert!(paths.db_file().starts_with(paths.data_dir()));
    assert!(paths.session_file().starts_with(paths.data_dir()));
    assert!(paths.browser_profile().starts_with(paths.data_dir()));
}

#[test]
fn the_legacy_path_is_not_the_current_one() {
    let paths = AppPaths::rooted_at(location("/tmp/test"));
    let legacy = paths.legacy_session_file().unwrap();
    assert!(!legacy.same(&paths.session_file()));
}

/// Everything a purge has to take away has to be under something this returns.
#[test]
fn every_directory_written_to_is_on_the_purge_list() {
    let paths = AppPaths::rooted_at(location("/tmp/test"));
    let owned = paths.owned_dirs();

    for path in [
        paths.db_file(),
        paths.session_file(),
        paths.browser_profile(),
        paths.legacy_session_file().unwrap(),
        config::path(&paths),
    ] {
        assert!(
            owned.iter().any(|dir| path.starts_with(dir)),
            "{} is under no directory purge would remove",
            path.to_text('/')
        );
    }
}

/// On some platforms the configuration and data directories are one path.
#[test]
fn the_purge_list_has_no_repeats() {
    let one = location("/home/me/app");
    let paths = discovered(one.clone(), one.clone(), one.clone());
    assert_eq!(paths.owned_dirs().len(), 1);
    assert!(paths.legacy_session_file().is_none());
    assert_eq!(paths.session_files().len(), 1);

    let apart = discovered(one, location("/home/me/local"), location("/home/me/roaming"));
    assert_eq!(apart.owned_dirs().len(), 3);
    assert_eq!(apart.session_files().len(), 2);
}

#[test]
fn the_real_directories_are_removable() {
    let home = location("/home/me");
    let paths = discovered(
        location("/home/me/.config/snob-ig"),
        location("/home/me/.local/share/snob-ig"),
        location("/home/me/.local/share/snob-ig"),
    );
    for dir in paths.owned_dirs() {
        assert!(is_safe_to_remove(&dir, Some(&home)), "{}", dir.to_text('/'));
        assert!(is_safe_to_remove(&dir, None), "{}", dir.to_text('/'));
    }
}

#[test]
fn nothing_near_the_root_is_removable() {
    for dangerous in ["/", "/home", "/data", "C:\\", "C:\\Users"] {
        assert!(
            !is_safe_to_remove(&location(dangerous), None),
            "{dangerous} should never be removable"
        );
    }
}

#[test]
fn the_home_directory_is_not_removable() {
    let home = location("/home/me");
    assert!(!is_safe_to_remove(&home, Some(&home)));
    assert!(is_safe_to_remove(&location("/home/you"), Some(&home)));
}

#[test]
fn data_goes_to_the_local_directory() {
    let local = location("/local/snob-ig");
    let paths = discovered(location("/roaming/snob-ig"), local.clone(), location("/roaming/snob-ig"));
    assert!(paths.data_dir().same(&local));
    assert!(!paths.db_file().to_text('/').contains("roaming"));
    assert!(paths.config_dir().same(&location("/roaming/snob-ig")));
    assert!(paths.clone().data_dir().same(&local));
}

#[test]
fn a_place_is_written_with_the_platforms_separator() {
    assert_eq!(location("/tmp/test").join("x").to_text('/'), "/tmp/test/x");
    let windows = Location {
        root: "C:\\".to_string(),
        names: vec!["Users".to_string(), "me".to_string()],
    };
    assert_eq!(windows.to_text('\\'), "C:\\Users\\me");
    assert_eq!(location("/").to_text('/'), "/");
    assert_eq!(app_dir_name(), "snob-ig");
}

#[test]
fn what_went_wrong_with_a_place_is_named() {
    assert_eq!(PathError::NoHome.to_string(), "could not determine the user's data directory");
    assert_eq!(
        PathError::Create { path: "/x".to_string(), source: "no".to_string() }.to_string(),
        "could not create the directory /x: no"
    );
    assert_eq!(
        PathError::NotPrivate { path: "/x".to_string(), detail: "why".to_string() }.to_string(),
        "could not restrict /x to your account: why"
    );
}
