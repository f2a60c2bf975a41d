use snapdock::settings::{
    default_language, flush, get, load, set_language, set_launch_at_startup, startup_command,
    to_wide, Settings,
};

#[test]
fn defaults_before_load() {
    let cache: Option<Settings> = None;
    let s = get(&cache);
    assert_eq!(s.language, "en");
    assert!(!s.launch_at_startup);
    assert_eq!(default_language(), "en");
    let d = Settings::default();
    assert_eq!(d.language, "en");
    assert!(!d.launch_at_startup);
}

#[test]
fn load_falls_back_to_defaults_and_caches() {
    let mut cache: Option<Settings> = None;
    let s = load(&mut cache, None);
    assert_eq!(s.language, "en");
    assert!(cache.is_some());
    let s = load(&mut cache, Some(Settings { language: "zh-CN".to_string(), launch_at_startup: true }));
    assert_eq!(s.language, "zh-CN");
    assert!(get(&cache).launch_at_startup);
}

#[test]
fn language_reads_back_and_keeps_launch_flag() {
    let mut cache = Some(Settings { language: "en".to_string(), launch_at_startup: true });
    let s = set_language(&mut cache, "zh-CN");
    assert_eq!(s.language, "zh-CN");
    assert!(s.launch_at_startup);
    let g = get(&cache);
    assert_eq!(g.language, "zh-CN");
    assert!(g.launch_at_startup);
}

#[test]
fn launch_flag_reads_back_and_keeps_language() {
    let mut cache = Some(Settings { language: "zh-CN".to_string(), launch_at_startup: false });
    let s = set_launch_at_startup(&mut cache, true);
    assert!(s.launch_at_startup);
    assert_eq!(s.language, "zh-CN");
    assert!(get(&cache).launch_at_startup);
    set_launch_at_startup(&mut cache, false);
    assert!(!get(&cache).launch_at_startup);
}

#[test]
fn settings_are_independent_of_order() {
    let mut a: Option<Settings> = None;
    set_language(&mut a, "zh-CN");
    set_launch_at_startup(&mut a, true);
    let mut b: Option<Settings> = None;
    set_launch_at_startup(&mut b, true);
    set_language(&mut b, "zh-CN");
    let (x, y) = (get(&a), get(&b));
    assert_eq!((x.language, x.launch_at_startup), (y.language, y.launch_at_startup));
}

#[test]
fn flush_writes_what_is_in_effect() {
    let mut cache: Option<Settings> = None;
    let s = flush(&mut cache);
    assert_eq!(s.language, "en");
    assert!(cache.is_some());
    set_language(&mut cache, "zh-CN");
    assert_eq!(flush(&mut cache).language, "zh-CN");
}

#[test]
fn wide_strings_are_nul_terminated_utf16() {
    assert_eq!(to_wide(""), vec![0]);
    assert_eq!(to_wide("SnapDock"), "SnapDock".encode_utf16().chain([0]).collect::<Vec<u16>>());
    assert_eq!(to_wide("文件"), vec![0x6587, 0x4EF6, 0]);
    assert_eq!(to_wide("😀"), vec![0xD83D, 0xDE00, 0]);
}

#[test]
fn startup_command_is_quoted() {
    assert_eq!(startup_command(r"C:\Program Files\SnapDock\SnapDock.exe"), "\"C:\\Program Files\\SnapDock\\SnapDock.exe\"");
}
