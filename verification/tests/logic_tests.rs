use taskbar_drawer::config::{AppConfig, ShortcutItem};
use taskbar_drawer::drawer::{
    flyout_ex_style, matching_indices, point_in_rect, popup_window_size, truncate_title,
    DrawerState,
};
use taskbar_drawer::icon::{bgra_to_rgba, icon_from_bitmap, stylish_tray_icon_rgba};
use taskbar_drawer::launch::{plan_launch, LaunchPlan};
use taskbar_drawer::paths::{extension, file_stem, join, same_path, working_folder};
use taskbar_drawer::text::{split_whitespace, str_contains, to_lowercase, trim, u128_to_decimal};
use taskbar_drawer::tray::{
    clear_recently_hidden, get_auto_show_on_tray_hover, monitor_sleep_ms, record_window_hide,
    record_window_hide_at, set_auto_show_on_tray_hover, toggle_action, tray_monitor_step,
    was_recently_hidden, was_recently_hidden_at, MonitorInput, ToggleAction, TrayState,
};
use taskbar_drawer::wide::{path_to_wide, to_wide_chars};

fn item(name: &str, path: &str, args: Option<&str>, admin: bool, silent: bool) -> ShortcutItem {
    ShortcutItem {
        id: format!("{}-1", name),
        name: name.to_string(),
        path: path.to_string(),
        args: args.map(|a| a.to_string()),
        custom_icon: None,
        run_as_admin: admin,
        silent,
    }
}

#[test]
fn file_stem_and_extension_follow_windows_paths() {
    assert_eq!(file_stem("C:\\test1.bat").as_deref(), Some("test1"));
    assert_eq!(extension("C:\\test1.bat").as_deref(), Some("bat"));
    assert_eq!(file_stem("C:/dir/archive.tar.gz").as_deref(), Some("archive.tar"));
    assert_eq!(extension("C:/dir/archive.tar.gz").as_deref(), Some("gz"));
    assert_eq!(file_stem("D:\\home\\.bashrc").as_deref(), Some(".bashrc"));
    assert_eq!(extension("D:\\home\\.bashrc"), None);
    assert_eq!(file_stem("name.").as_deref(), Some("name"));
    assert_eq!(extension("name.").as_deref(), Some(""));
    assert_eq!(file_stem("C:\\dir\\sub\\").as_deref(), Some("sub"));
    assert_eq!(file_stem("C:\\dir\\.."), None);
    assert_eq!(file_stem("C:"), None);
    assert_eq!(file_stem("C:run.cmd").as_deref(), Some("run"));
    assert_eq!(extension("noext"), None);
}

#[test]
fn same_path_compares_components() {
    assert!(same_path("C:\\a\\b", "c:/a/b/"));
    assert!(same_path("C:\\a\\.\\b", "C:\\a\\b"));
    assert!(same_path("a\\\\b", "a/b"));
    assert!(!same_path(".\\a", "a"));
    assert!(!same_path("\\a", "a"));
    assert!(!same_path("C:a", "C:\\a"));
    assert!(!same_path("C:\\a", "D:\\a"));
    assert!(!same_path("C:\\A", "C:\\a"));
    assert!(!same_path("C:\\a\\..\\b", "C:\\b"));
}

#[test]
fn join_adds_one_separator() {
    assert_eq!(join("C:\\x", "y"), "C:\\x\\y");
    assert_eq!(join("C:\\x/", "y"), "C:\\x/y");
    assert_eq!(join("C:", "y"), "C:y");
    assert_eq!(join("", "y"), "y");
}

#[test]
fn text_helpers() {
    assert!(str_contains("setup_admin", "admin"));
    assert!(!str_contains("adm", "admin"));
    assert!(str_contains("anything", ""));
    assert_eq!(to_lowercase("ÀDMIN Ω"), "àdmin ω");
    assert_eq!(trim("  \t hello world \u{3000}\n"), "hello world");
    assert_eq!(trim(" \u{85} "), "");
    assert_eq!(split_whitespace("  -a  b\u{a0}c\td "), vec!["-a", "b", "c", "d"]);
    assert!(split_whitespace(" \t ").is_empty());
    assert_eq!(u128_to_decimal(0), "0");
    assert_eq!(u128_to_decimal(1_700_000_000_123), "1700000000123");
    assert_eq!(u128_to_decimal(u128::MAX), u128::MAX.to_string());
}

#[test]
fn wide_strings_are_utf16_with_a_terminator() {
    assert_eq!(to_wide_chars("runas"), vec![114, 117, 110, 97, 115, 0]);
    assert_eq!(to_wide_chars(""), vec![0]);
    let expected: Vec<u16> = "C:\\é😀.bat".encode_utf16().chain(std::iter::once(0)).collect();
    assert_eq!(path_to_wide("C:\\é😀.bat"), expected);
    assert_eq!(to_wide_chars("😀"), vec![0xD83D, 0xDE00, 0]);
}

#[test]
fn tray_state_tracks_hides() {
    let mut s = TrayState::new();
    assert!(get_auto_show_on_tray_hover(&s));
    set_auto_show_on_tray_hover(&mut s, false);
    assert!(!get_auto_show_on_tray_hover(&s));
    assert!(!was_recently_hidden_at(&s, 1000, 450));
    record_window_hide_at(&mut s, 1000);
    assert!(was_recently_hidden_at(&s, 1449, 450));
    assert!(!was_recently_hidden_at(&s, 1450, 450));
    assert!(was_recently_hidden_at(&s, 900, 450));
    assert!(!was_recently_hidden_at(&s, 1000, 0));
    clear_recently_hidden(&mut s);
    assert!(!was_recently_hidden_at(&s, 1000, 450));
    record_window_hide(&mut s);
    assert!(s.last_hide_millis > 1_600_000_000_000);
    assert!(was_recently_hidden(&s, 60_000));
    assert!(!get_auto_show_on_tray_hover(&s));
}

#[test]
fn tray_click_decisions() {
    assert_eq!(toggle_action(true, true), ToggleAction::KeepHidden);
    assert_eq!(toggle_action(true, false), ToggleAction::KeepHidden);
    assert_eq!(toggle_action(false, true), ToggleAction::Hide);
    assert_eq!(toggle_action(false, false), ToggleAction::Show);
}

#[test]
fn tray_monitor_opens_after_dwell() {
    let look = |now: u64| MonitorInput {
        auto_show: true,
        lbutton_down: true,
        window_visible: false,
        recently_hidden: false,
        cursor_in_tray: true,
        now_millis: now,
    };
    assert_eq!(monitor_sleep_ms(true), 40);
    assert_eq!(monitor_sleep_ms(false), 100);
    let (h, show) = tray_monitor_step(None, &look(1000));
    assert_eq!((h, show), (Some(1000), false));
    assert_eq!(tray_monitor_step(h, &look(1199)), (Some(1000), false));
    assert_eq!(tray_monitor_step(h, &look(1200)), (None, true));
    let mut off = look(1300);
    off.cursor_in_tray = false;
    assert_eq!(tray_monitor_step(h, &off), (None, false));
    let mut disabled = look(1300);
    disabled.auto_show = false;
    assert_eq!(tray_monitor_step(h, &disabled), (None, false));
}

#[test]
fn tray_icon_pixels() {
    let rgba = stylish_tray_icon_rgba();
    assert_eq!(rgba.len(), 32 * 32 * 4);
    let px = |x: usize, y: usize| -> [u8; 4] {
        let i = (y * 32 + x) * 4;
        [rgba[i], rgba[i + 1], rgba[i + 2], rgba[i + 3]]
    };
    assert_eq!(px(0, 0), [0, 0, 0, 0]);
    assert_eq!(px(3, 5), [255, 255, 255, 250]);
    assert_eq!(px(10, 15), [255, 255, 255, 250]);
    assert_eq!(px(12, 9), [255, 200, 0, 255]);
    assert_eq!(px(20, 9), [0, 150, 255, 230]);
    assert_eq!(px(28, 26), [255, 255, 255, 250]);
    assert_eq!(px(29, 26), [0, 0, 0, 0]);
}

#[test]
fn bgra_becomes_rgba() {
    let with_alpha = vec![1, 2, 3, 0, 4, 5, 6, 7];
    assert_eq!(bgra_to_rgba(&with_alpha), vec![3, 2, 1, 0, 6, 5, 4, 7]);
    let no_alpha = vec![1, 2, 3, 0, 4, 5, 6, 0];
    assert_eq!(bgra_to_rgba(&no_alpha), vec![3, 2, 1, 255, 6, 5, 4, 255]);
    let icon = icon_from_bitmap(2, 1, &with_alpha, 1).unwrap();
    assert_eq!((icon.width, icon.height), (2, 1));
    assert_eq!(icon.rgba, vec![3, 2, 1, 0, 6, 5, 4, 7]);
    assert!(icon_from_bitmap(0, 3, &vec![], 3).is_none());
    assert!(icon_from_bitmap(2, 1, &with_alpha, 0).is_none());
}

#[test]
fn launch_plans() {
    match plan_launch(&item("x", "C:\\x.BAT", Some("a b"), true, true)) {
        LaunchPlan::Elevated { hidden } => assert!(hidden),
        _ => panic!("expected an elevated launch"),
    }
    match plan_launch(&item("x", "C:\\x.Cmd", Some("  -v  --out  file "), false, true)) {
        LaunchPlan::SilentScript { args } => assert_eq!(args, vec!["-v", "--out", "file"]),
        _ => panic!("expected a silent script"),
    }
    match plan_launch(&item("x", "C:\\x.cmd", None, false, true)) {
        LaunchPlan::SilentScript { args } => assert!(args.is_empty()),
        _ => panic!("expected a silent script"),
    }
    assert!(matches!(plan_launch(&item("x", "C:\\x.exe", None, false, true)), LaunchPlan::Open));
    assert!(matches!(plan_launch(&item("x", "C:\\x.bat", None, false, false)), LaunchPlan::Open));
}

#[test]
fn search_matches_names_and_paths() {
    let items = vec![
        item("Backup", "C:\\tools\\backup.bat", None, false, false),
        item("Deploy", "D:\\Work\\deploy.cmd", None, false, false),
        item("Notes", "C:\\tools\\notes.exe", None, false, false),
    ];
    assert_eq!(matching_indices(&items, ""), vec![0, 1, 2]);
    assert_eq!(matching_indices(&items, "   "), vec![0, 1, 2]);
    assert_eq!(matching_indices(&items, "  TOOLS "), vec![0, 2]);
    assert_eq!(matching_indices(&items, "dep"), vec![1]);
    assert_eq!(matching_indices(&items, "zzz"), Vec::<usize>::new());
}

#[test]
fn titles_are_cut_after_seven_characters() {
    assert_eq!(truncate_title("Backup"), "Backup");
    assert_eq!(truncate_title("Backups"), "Backups");
    assert_eq!(truncate_title("Backupss"), "Backup...");
    assert_eq!(truncate_title("快捷抽屉脚本工具集"), "快捷抽屉脚本...");
}

#[test]
fn flyout_style_leaves_the_taskbar() {
    assert_eq!(flyout_ex_style(0x0004_0000), 0x80);
    assert_eq!(flyout_ex_style(0x0004_0108), 0x188);
    assert_eq!(flyout_ex_style(-1), -1 & !0x0004_0000);
}

#[test]
fn popup_size_uses_large_rectangles_only() {
    assert_eq!(popup_window_size(Some((10, 20, 410, 520)), 380, 480), (400, 500));
    assert_eq!(popup_window_size(Some((10, 20, 100, 520)), 380, 480), (380, 480));
    assert_eq!(popup_window_size(None, 380, 480), (380, 480));
}

#[test]
fn drawer_drag_and_drop_reorders() {
    let mut config = AppConfig::default();
    for p in ["C:\\a.bat", "C:\\b.bat", "C:\\c.bat"] {
        config.add_item_from_path(p, None);
    }
    let mut d = DrawerState::new();
    assert!(d.click_launches(true, false));
    d.note_item_response(0, true, true, true);
    assert_eq!(d.dragged_index, Some(0));
    assert!(d.is_reordering);
    assert!(!d.click_launches(true, false));
    d.note_item_response(2, false, false, true);
    assert_eq!(d.drag_target_index, Some(2));
    assert!(d.finish_pointer_release(&mut config));
    let names: Vec<_> = config.items.iter().map(|i| i.name.clone()).collect();
    assert_eq!(names, ["b", "c", "a"]);
    assert!(d.just_dropped && !d.is_reordering);
    assert_eq!((d.dragged_index, d.drag_target_index), (None, None));
    assert!(!d.click_launches(true, false));
    d.settle_drop(false, false);
    assert!(!d.just_dropped);
    assert!(!d.finish_pointer_release(&mut config));
}

#[test]
fn drawer_focus_visibility_and_blur() {
    let mut d = DrawerState::new();
    assert!(d.note_focus(false));
    assert!(!d.note_focus(false));
    assert!(!d.should_hide_on_blur(true, false, false, 500));
    assert!(d.should_hide_on_blur(true, false, false, 601));
    assert!(!d.should_hide_on_blur(false, false, false, 601));
    assert!(!d.should_hide_on_blur(true, true, false, 601));
    assert!(d.note_focus(true));
    assert!(d.has_gained_focus);
    assert!(d.should_hide_on_blur(true, false, false, 201));
    assert!(!d.should_hide_on_blur(true, false, true, 201));
    d.mark_hidden();
    assert!(d.sync_visibility(true));
    assert!(!d.has_gained_focus);
    assert!(!d.sync_visibility(true));
    d.begin_frame();
    assert_eq!(d.frame_count, 1);
    d.note_external_drop(2);
    assert!(d.just_dropped);
}

#[test]
fn joined_names_are_the_file_names() {
    for dir in ["C:\\Apps\\Drawer", "C:\\Apps\\Drawer\\", "D:", "", ".", "\\\\server\\share"] {
        let p = AppConfig::config_path(dir);
        assert_eq!(file_stem(&p).as_deref(), Some("shortcuts"));
        assert_eq!(extension(&p).as_deref(), Some("json"));
        let d = AppConfig::shortcuts_dir(dir);
        assert_eq!(file_stem(&d).as_deref(), Some("shortcuts"));
    }
}

#[test]
fn operations_keep_paths_distinct_and_items_whole() {
    let mut config = AppConfig::default();
    for p in ["C:\\a.bat", "c:/a.bat", "C:\\b.cmd", "C:\\B.cmd", "C:\\x\\..\\b.cmd", "C:\\.\\b.cmd"] {
        config.add_item_from_path(p, None);
    }
    config.move_item(0, 3);
    config.move_item(2, 1);
    config.remove_item(1);
    config.move_item(0, 1);
    let n = config.items.len();
    for i in 0..n {
        for j in 0..n {
            if i != j {
                assert!(!same_path(&config.items[i].path, &config.items[j].path));
            }
        }
    }
    let mut before: Vec<_> = config.items.iter().map(|i| i.id.clone()).collect();
    config.move_item(0, 2);
    let mut after: Vec<_> = config.items.iter().map(|i| i.id.clone()).collect();
    before.sort();
    after.sort();
    assert_eq!(before, after);
}

#[test]
fn tray_monitor_never_opens_while_recently_hidden_or_visible() {
    let mut input = MonitorInput {
        auto_show: true,
        lbutton_down: true,
        window_visible: false,
        recently_hidden: true,
        cursor_in_tray: true,
        now_millis: 5000,
    };
    assert_eq!(tray_monitor_step(Some(1000), &input), (None, false));
    input.recently_hidden = false;
    input.window_visible = true;
    assert_eq!(tray_monitor_step(Some(1000), &input), (None, false));
}

#[test]
fn prefixes_are_read_as_windows_reads_them() {
    // A share is a prefix with an implied root; a single leading separator is not.
    assert!(!same_path("\\\\s\\h\\a.bat", "\\s\\h\\a.bat"));
    assert!(same_path("\\\\server\\share", "//server/share/"));
    assert!(same_path("\\\\server\\share\\a", "\\\\server\\share\\.\\a"));
    assert!(!same_path("\\\\server\\share\\a", "\\\\server\\Share\\a"));
    assert_eq!(file_stem("\\\\server\\share"), None);
    assert_eq!(file_stem("\\\\server\\share\\tool.exe").as_deref(), Some("tool"));
    // A leading `.` counts only in a path with neither prefix nor root.
    assert!(same_path("C:a.bat", "C:.\\a.bat"));
    assert!(same_path("C:.", "C:"));
    assert!(!same_path(".\\a", "a"));
    assert!(same_path(".\\a", "./a"));
    assert!(same_path("\\.\\a", "\\a"));
    assert_eq!(file_stem("C:."), None);
    assert_eq!(file_stem("C:.\\x.bat").as_deref(), Some("x"));
    // Device paths.
    assert!(same_path("\\\\.\\COM1", "//./COM1"));
    // Verbatim paths: only `\` separates, and `.` is a component.
    assert!(same_path("\\\\?\\c:\\x", "\\\\?\\C:\\x"));
    assert!(!same_path("\\\\?\\C:\\a\\b", "\\\\?\\C:\\a/b"));
    assert!(!same_path("\\\\?\\C:\\a\\.\\b", "\\\\?\\C:\\a\\b"));
    assert!(same_path("\\\\?\\C:\\a\\\\b\\", "\\\\?\\C:\\a\\b"));
    assert!(!same_path("\\\\?\\C:\\a", "C:\\a"));
    assert_eq!(file_stem("\\\\?\\C:\\dir\\."), None);
    assert_eq!(file_stem("\\\\?\\C:\\dir\\x.y/z.bat").as_deref(), Some("x.y/z"));
    assert_eq!(file_stem("\\\\?\\UNC\\srv\\share\\run.cmd").as_deref(), Some("run"));
    assert_eq!(file_stem("\\\\?\\pipe"), None);
}

#[test]
fn share_roots_get_the_default_name() {
    let mut config = AppConfig::default();
    assert!(config.add_item_from_path("\\\\server\\share", None));
    assert_eq!(config.items[0].name, "Shortcut");
    assert!(config.add_item_from_path("\\server\\share\\a.bat", None));
    assert!(config.add_item_from_path("\\\\server\\share\\a.bat", None));
    assert!(!config.add_item_from_path("//server/share/a.bat", None));
}

#[test]
fn join_rebuilds_verbatim_folders() {
    assert_eq!(join("\\\\?\\C:\\Apps\\\\", "shortcuts"), "\\\\?\\C:\\Apps\\shortcuts");
    assert_eq!(join("\\\\?\\C:", "x"), "\\\\?\\C:\\x");
    assert_eq!(join("\\\\?\\C:\\a/", "x"), "\\\\?\\C:\\a/\\x");
    assert_eq!(join("\\\\?\\C:\\a\\.\\b", "x"), "\\\\?\\C:\\a\\.\\b\\x");
    assert_eq!(join("\\\\server\\share", "x"), "\\\\server\\share\\x");
    // A bare server name joined with a name becomes a share prefix.
    assert_eq!(join("\\\\server", "x"), "\\\\server\\x");
    assert_eq!(file_stem("\\\\server\\x"), None);
}

#[test]
fn interaction_and_rectangles() {
    let mut d = DrawerState::new();
    assert!(!d.is_active_interaction(false, false, false, false));
    assert!(d.is_active_interaction(false, false, false, true));
    assert!(d.is_active_interaction(true, false, false, false));
    d.note_item_response(1, true, false, false);
    assert!(d.is_active_interaction(false, false, false, false));
    assert!(point_in_rect(5, 5, 0, 0, 10, 10));
    assert!(point_in_rect(10, 0, 0, 0, 10, 10));
    assert!(!point_in_rect(11, 5, 0, 0, 10, 10));
    assert!(!point_in_rect(5, -1, 0, 0, 10, 10));
}

#[test]
fn monitor_run_opens_only_after_a_full_dwell() {
    let ready = |now: u64| MonitorInput {
        auto_show: true,
        lbutton_down: true,
        window_visible: false,
        recently_hidden: false,
        cursor_in_tray: true,
        now_millis: now,
    };
    let mut hover = None;
    let mut opened_at = Vec::new();
    for (k, now) in [0u64, 100, 150, 260, 300, 400, 520, 700].iter().enumerate() {
        let mut input = ready(*now);
        if k == 2 {
            input.cursor_in_tray = false;
        }
        let (h, show) = tray_monitor_step(hover, &input);
        hover = h;
        if show {
            opened_at.push(*now);
        }
    }
    // The hover restarts at 260 after the cursor left the tray at 150, opens
    // at 520, restarts at 700.
    assert_eq!(opened_at, vec![520]);
    assert_eq!(hover, Some(700));
}

#[test]
fn working_folder_is_the_path_without_its_last_component() {
    let folder = |p: &str| working_folder(p);
    assert_eq!(folder("C:\\Tools\\run.bat").as_deref(), Some("C:\\Tools\\"));
    assert_eq!(folder("C:\\run.bat").as_deref(), Some("C:\\"));
    assert_eq!(folder("C:\\Tools\\sub\\").as_deref(), Some("C:\\Tools\\"));
    assert_eq!(folder("C:/Tools/./run.bat").as_deref(), Some("C:/Tools/./"));
    assert_eq!(folder("run.bat").as_deref(), Some(""));
    assert_eq!(folder(".\\run.bat").as_deref(), Some(".\\"));
    assert_eq!(folder("C:.\\a.bat").as_deref(), Some("C:.\\"));
    assert_eq!(folder("\\\\server\\share\\a.cmd").as_deref(), Some("\\\\server\\share\\"));
    assert_eq!(folder("\\\\?\\C:\\dir\\a.bat").as_deref(), Some("\\\\?\\C:\\dir\\"));
    assert_eq!(folder("C:\\"), None);
    assert_eq!(folder("C:"), None);
    assert_eq!(folder("\\\\server\\share"), None);
    assert_eq!(folder(""), None);
    // The folder keeps the prefix: an empty share stays empty.
    let d = folder("\\\\?\\UNC\\srv\\\\a\\b").unwrap();
    assert_eq!(d, "\\\\?\\UNC\\srv\\\\a\\");
    assert!(same_path(&d, "\\\\?\\UNC\\srv\\\\a"));
    assert!(!same_path(&d, "\\\\?\\UNC\\srv\\a"));
    assert!(same_path(&folder("C:\\Tools\\run.bat").unwrap(), "C:\\Tools"));
}
