use taskbar_drawer::config::{default_true, AppConfig, LayoutMode, ScannedFile};
use taskbar_drawer::paths::{file_stem, same_path};

#[test]
fn test_add_and_move_items() {
    let mut config = AppConfig::default();
    let path1 = "C:\\test1.bat";
    let path2 = "C:\\test2.bat";

    assert!(config.add_item_from_path(path1, None));
    assert!(config.add_item_from_path(path2, None));
    assert!(!config.add_item_from_path(path1, None)); // Duplicate check

    assert_eq!(config.items.len(), 2);
    assert_eq!(config.items[0].name, "test1");
    assert_eq!(config.items[1].name, "test2");

    // Test move / drag reorder
    config.move_item(0, 1);
    assert_eq!(config.items[0].name, "test2");
    assert_eq!(config.items[1].name, "test1");
}

#[test]
fn test_admin_and_silent_detection() {
    let mut config = AppConfig::default();
    let admin_path = "C:\\setup_admin.bat";
    let silent_path = "C:\\clean_silent.bat";

    config.add_item_from_path(admin_path, None);
    config.add_item_from_path(silent_path, None);

    assert!(config.items[0].run_as_admin);
    assert!(!config.items[0].silent);

    assert!(!config.items[1].run_as_admin);
    assert!(config.items[1].silent);
}

#[test]
fn default_config_is_grid_with_switches_on_and_no_items() {
    let config = AppConfig::default();
    assert_eq!(config.layout, LayoutMode::Grid);
    assert!(config.auto_exit_on_launch);
    assert!(config.auto_exit_on_blur);
    assert!(config.auto_show_on_tray_hover);
    assert!(config.items.is_empty());
    assert!(default_true());
}

#[test]
fn layout_toggles_between_grid_and_list() {
    assert_eq!(LayoutMode::Grid.toggled(), LayoutMode::List);
    assert_eq!(LayoutMode::List.toggled(), LayoutMode::Grid);
    assert_eq!(LayoutMode::Grid.toggled().toggled(), LayoutMode::Grid);
}

#[test]
fn config_and_shortcuts_paths_join_the_folder() {
    assert_eq!(AppConfig::config_path("C:\\Apps\\Drawer"), "C:\\Apps\\Drawer\\shortcuts.json");
    assert_eq!(AppConfig::shortcuts_dir("C:\\Apps\\Drawer\\"), "C:\\Apps\\Drawer\\shortcuts");
    assert_eq!(AppConfig::config_path("."), ".\\shortcuts.json");
    assert_eq!(AppConfig::shortcuts_dir("D:"), "D:shortcuts");
    assert_eq!(AppConfig::config_path(""), "shortcuts.json");
}

#[test]
fn new_item_fields_follow_the_file_name() {
    let mut config = AppConfig::default();
    assert!(config.add_item_from_path("C:\\Tools\\Deploy.Release.CMD", None));
    let item = &config.items[0];
    assert_eq!(item.name, "Deploy.Release");
    assert_eq!(item.path, "C:\\Tools\\Deploy.Release.CMD");
    assert_eq!(item.args, None);
    assert_eq!(item.custom_icon, None);
    assert!(!item.run_as_admin);
    assert!(!item.silent);
    let prefix = "Deploy.Release-";
    assert!(item.id.starts_with(prefix));
    let digits = &item.id[prefix.len()..];
    assert!(!digits.is_empty());
    assert!(digits.chars().all(|c| c.is_ascii_digit()));
    // A clock after 2020 gives at least thirteen digits of milliseconds.
    assert!(digits.len() >= 13);
}

#[test]
fn markers_are_found_case_insensitively() {
    let mut config = AppConfig::default();
    assert!(config.add_item_from_path("C:\\SETUP_ADMIN.BAT", None));
    assert!(config.add_item_from_path("C:\\HideConsole.Cmd", None));
    assert!(config.items[0].run_as_admin);
    assert!(!config.items[0].silent);
    assert!(config.items[1].silent);
}

#[test]
fn silent_marker_ignored_for_programs() {
    let mut config = AppConfig::default();
    assert!(config.add_item_from_path("C:\\silent_tool.exe", None));
    assert!(config.add_item_from_path("C:\\hide_admin.ps1", None));
    assert!(!config.items[0].silent);
    assert!(!config.items[1].silent);
    assert!(config.items[1].run_as_admin);
}

#[test]
fn name_defaults_when_the_path_has_no_file_name() {
    let mut config = AppConfig::default();
    assert!(config.add_item_from_path("C:\\", None));
    assert_eq!(config.items[0].name, "Shortcut");
    assert!(config.items[0].id.starts_with("Shortcut-"));
}

#[test]
fn duplicates_are_found_by_path_components() {
    let mut config = AppConfig::default();
    assert!(config.add_item_from_path("C:\\Scripts\\run.bat", None));
    assert!(!config.add_item_from_path("c:/Scripts//run.bat", None));
    assert!(!config.add_item_from_path("C:\\Scripts\\.\\run.bat\\", None));
    assert!(config.add_item_from_path("C:\\Scripts\\Run.bat", None));
    assert_eq!(config.items.len(), 2);
}

#[test]
fn a_dot_after_a_drive_is_no_component() {
    let mut config = AppConfig::default();
    assert!(config.add_item_from_path("C:a.bat", None));
    assert!(!config.add_item_from_path("C:.\\a.bat", None));
    assert!(!config.add_item_from_path("c:./a.bat", None));
    assert!(config.add_item_from_path(".\\a.bat", None));
    assert!(!config.add_item_from_path("./a.bat", None));
    assert!(config.add_item_from_path("a.bat", None));
    assert_eq!(config.items.len(), 3);
}

#[test]
fn duplicates_are_found_through_the_resolved_path() {
    let mut config = AppConfig::default();
    assert!(config.add_item_from_path("C:\\real\\tool.exe", None));
    // A link whose resolved path is an existing shortcut is refused.
    assert!(!config.add_item_from_path("C:\\links\\tool.exe", Some("C:\\real\\tool.exe".to_string())));
    // A path that resolves elsewhere is added under the path as given.
    assert!(config.add_item_from_path("C:\\other\\tool.exe", Some("C:\\elsewhere\\tool.exe".to_string())));
    assert_eq!(config.items[1].path, "C:\\other\\tool.exe");
}

#[test]
fn remove_item_removes_in_range_only() {
    let mut config = AppConfig::default();
    config.add_item_from_path("C:\\a.bat", None);
    config.add_item_from_path("C:\\b.bat", None);
    config.add_item_from_path("C:\\c.bat", None);
    config.remove_item(5);
    assert_eq!(config.items.len(), 3);
    config.remove_item(1);
    assert_eq!(config.items.len(), 2);
    assert_eq!(config.items[0].name, "a");
    assert_eq!(config.items[1].name, "c");
}

#[test]
fn move_item_ignores_invalid_moves_and_moving_back_restores() {
    let mut config = AppConfig::default();
    for p in ["C:\\a.bat", "C:\\b.bat", "C:\\c.bat", "C:\\d.bat"] {
        config.add_item_from_path(p, None);
    }
    let names = |c: &AppConfig| c.items.iter().map(|i| i.name.clone()).collect::<Vec<_>>();
    config.move_item(1, 1);
    config.move_item(4, 0);
    config.move_item(0, 9);
    assert_eq!(names(&config), ["a", "b", "c", "d"]);
    config.move_item(3, 1);
    assert_eq!(names(&config), ["a", "d", "b", "c"]);
    config.move_item(1, 3);
    assert_eq!(names(&config), ["a", "b", "c", "d"]);
    config.move_item(0, 2);
    assert_eq!(names(&config), ["b", "c", "a", "d"]);
}

#[test]
fn scan_adds_only_shortcut_files_in_order() {
    let mut config = AppConfig::default();
    config.add_item_from_path("C:\\s\\old.bat", None);
    let files = vec![
        ScannedFile { path: "C:\\s\\readme.txt".to_string(), canonical: None },
        ScannedFile { path: "C:\\s\\Build.PS1".to_string(), canonical: None },
        ScannedFile { path: "C:\\s\\old.bat".to_string(), canonical: None },
        ScannedFile { path: "C:\\s\\app.exe".to_string(), canonical: None },
        ScannedFile { path: "C:\\s\\site.url".to_string(), canonical: None },
        ScannedFile { path: "C:\\s\\link.lnk".to_string(), canonical: None },
        ScannedFile { path: "C:\\s\\noext".to_string(), canonical: None },
        ScannedFile { path: "C:\\s\\x.cmd".to_string(), canonical: None },
    ];
    config.scan_shortcuts_folder(&files);
    let names: Vec<_> = config.items.iter().map(|i| i.name.clone()).collect();
    assert_eq!(names, ["old", "Build", "app", "site", "link", "x"]);
}

#[test]
fn second_scan_over_the_same_files_adds_nothing() {
    let mut config = AppConfig::default();
    let files = vec![
        ScannedFile { path: "C:\\s\\a.bat".to_string(), canonical: None },
        ScannedFile { path: "C:\\s\\b.exe".to_string(), canonical: Some("C:\\real\\b.exe".to_string()) },
        ScannedFile { path: "C:\\s\\c.txt".to_string(), canonical: None },
    ];
    config.scan_shortcuts_folder(&files);
    let first: Vec<_> = config.items.iter().map(|i| i.id.clone()).collect();
    assert_eq!(first.len(), 2);
    config.scan_shortcuts_folder(&files);
    let second: Vec<_> = config.items.iter().map(|i| i.id.clone()).collect();
    assert_eq!(first, second);
}

#[test]
fn config_file_and_shortcuts_folder_share_their_folder() {
    for dir in ["C:\\Apps", "\\\\?\\C:\\Apps\\", "\\\\srv\\share", "relative\\dir", "D:"] {
        let c = AppConfig::config_path(dir);
        let s = AppConfig::shortcuts_dir(dir);
        assert!(!same_path(&c, &s));
        assert_eq!(c[..c.len() - "shortcuts.json".len()], s[..s.len() - "shortcuts".len()]);
        assert_eq!(file_stem(&c).as_deref(), Some("shortcuts"));
    }
}

#[test]
fn config_folder_is_the_program_folder() {
    let dir = AppConfig::config_dir("C:\\Program Files\\Drawer\\drawer.exe");
    assert_eq!(dir, "C:\\Program Files\\Drawer\\");
    assert_eq!(AppConfig::config_path(&dir), "C:\\Program Files\\Drawer\\shortcuts.json");
    assert_eq!(AppConfig::shortcuts_dir(&dir), "C:\\Program Files\\Drawer\\shortcuts");
    assert!(same_path(&dir, "C:\\Program Files\\Drawer"));
    let share = AppConfig::config_dir("\\\\host\\apps\\drawer.exe");
    assert_eq!(AppConfig::config_path(&share), "\\\\host\\apps\\shortcuts.json");
    assert_eq!(AppConfig::config_dir("drawer.exe"), "");
    assert_eq!(AppConfig::config_path(&AppConfig::config_dir("drawer.exe")), "shortcuts.json");
    assert_eq!(AppConfig::config_dir("C:\\"), ".");
    assert_eq!(AppConfig::config_dir(""), ".");
    assert_eq!(AppConfig::config_path(&AppConfig::config_dir("")), ".\\shortcuts.json");
}

#[test]
fn config_folder_under_verbatim_prefixes() {
    let dir = AppConfig::config_dir("\\\\?\\C:\\Apps\\drawer.exe");
    assert_eq!(dir, "\\\\?\\C:\\Apps\\");
    assert_eq!(AppConfig::config_path(&dir), "\\\\?\\C:\\Apps\\shortcuts.json");
    assert_eq!(AppConfig::shortcuts_dir(&dir), "\\\\?\\C:\\Apps\\shortcuts");
    // Without a share name, the folder's first component becomes the share.
    let dir = AppConfig::config_dir("\\\\?\\UNC\\srv\\\\a\\drawer.exe");
    assert_eq!(dir, "\\\\?\\UNC\\srv\\\\a\\");
    let config = AppConfig::config_path(&dir);
    let shortcuts = AppConfig::shortcuts_dir(&dir);
    assert_eq!(config, "\\\\?\\UNC\\srv\\a\\shortcuts.json");
    assert_eq!(file_stem(&config).as_deref(), Some("shortcuts"));
    assert_eq!(file_stem(&shortcuts).as_deref(), Some("shortcuts"));
    assert!(!same_path(&config, &shortcuts));
    // Right under such a prefix the joined name is read as the share.
    let dir = AppConfig::config_dir("\\\\?\\UNC\\srv\\\\drawer.exe");
    assert_eq!(AppConfig::config_path(&dir), "\\\\?\\UNC\\srv\\shortcuts.json");
    assert_eq!(file_stem(&AppConfig::config_path(&dir)), None);
}
