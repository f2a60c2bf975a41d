use snapdock::locale::{label_or_default, locale_file, tray_label};

const EN: &str = r#"{
  "panel": { "title": "SnapDock" },
  "tray": { "title": "SnapDock", "single": "Single Window", "grid": "2 x 2 Grid", "count": 3 }
}"#;

const ZH: &str = r#"{ "tray": { "single": "单窗口", "quit": "退出" } }"#;

#[test]
fn locale_file_by_language() {
    assert_eq!(locale_file("zh-CN"), "zh-CN.json");
    assert_eq!(locale_file("en"), "en.json");
    assert_eq!(locale_file("fr"), "en.json");
    assert_eq!(locale_file("zh"), "en.json");
}

#[test]
fn tray_labels_come_from_the_tray_section() {
    assert_eq!(tray_label(EN, "single", "x"), "Single Window");
    assert_eq!(tray_label(EN, "grid", "x"), "2 x 2 Grid");
    assert_eq!(tray_label(ZH, "single", "Single Window"), "单窗口");
    assert_eq!(tray_label(ZH, "quit", "Quit"), "退出");
}

#[test]
fn tray_labels_fall_back_to_defaults() {
    // missing key, non-string value, missing section, text that does not parse
    assert_eq!(tray_label(EN, "quit", "Quit"), "Quit");
    assert_eq!(tray_label(EN, "count", "Count"), "Count");
    assert_eq!(tray_label(r#"{ "panel": {} }"#, "quit", "Quit"), "Quit");
    assert_eq!(tray_label("not json", "quit", "Quit"), "Quit");
    assert_eq!(tray_label("", "about", "About"), "About");
}

#[test]
fn label_default_only_when_missing() {
    assert_eq!(label_or_default(Some("Layouts".to_string()), "x"), "Layouts");
    assert_eq!(label_or_default(None, "Layouts"), "Layouts");
}
