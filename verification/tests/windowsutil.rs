use snapdock::layout::Rect;
use snapdock::windowsutil::{
    exe_basename, has_visible_area, is_denied_class, is_eligible, is_helper_class,
    is_ime_or_helper_raw, is_user_window, live_windows, nul_terminated_len, without_handle,
    WS_EX_NOACTIVATE, WS_EX_TOOLWINDOW,
};

#[test]
fn default_ime_is_filtered() {
    assert!(is_ime_or_helper_raw("Default IME", "IME"));
}

#[test]
fn msctfime_ui_is_filtered() {
    assert!(is_ime_or_helper_raw("MSCTFIME UI", "MSCTFIME UI"));
}

#[test]
fn ctf_class_is_filtered() {
    assert!(is_ime_or_helper_raw("", "CTFDummyClass"));
}

#[test]
fn ordinary_windows_passthrough() {
    assert!(!is_ime_or_helper_raw("微信", "WeChatMainWndForPC"));
    assert!(!is_ime_or_helper_raw("v1.5 - 文件资源管理器", "CabinetWClass"));
    assert!(!is_ime_or_helper_raw("Clash for Windows", "Chrome_WidgetWin_1"));
}

#[test]
fn uppercase_ime_class_is_lowercased_before_matching() {
    assert!(is_ime_or_helper_raw("Some title", "IME"));
    assert!(is_ime_or_helper_raw("x", "IME Helper"));
    assert!(is_ime_or_helper_raw("x", "CiceroUIWndFrame"));
    assert!(!is_ime_or_helper_raw("x", "IMEX"));
    assert!(!is_ime_or_helper_raw("x", "Notepad"));
}

#[test]
fn helper_class_takes_lowercased_names() {
    assert!(is_helper_class("ime"));
    assert!(is_helper_class("ime foo"));
    assert!(is_helper_class("msctfime ui"));
    assert!(is_helper_class("cicerouiwndframe"));
    assert!(is_helper_class("ctfmon"));
    assert!(!is_helper_class("IME"));
    assert!(!is_helper_class("imex"));
    assert!(!is_helper_class(""));
}

#[test]
fn denied_classes() {
    for c in [
        "Progman",
        "WorkerW",
        "Shell_TrayWnd",
        "Shell_SecondaryTrayWnd",
        "Windows.UI.Core.CoreWindow",
        "ApplicationFrameWindow",
        "IME",
        "MSCTFIME UI",
        "CiceroUIWndFrame",
        "SysListView32",
    ] {
        assert!(is_denied_class(c), "{}", c);
    }
    assert!(!is_denied_class("progman"));
    assert!(!is_denied_class("Chrome_WidgetWin_1"));
}

#[test]
fn visible_area_needs_positive_size() {
    assert!(has_visible_area(&Rect { left: 0, top: 0, right: 10, bottom: 10 }));
    assert!(!has_visible_area(&Rect { left: 0, top: 0, right: 0, bottom: 10 }));
    assert!(!has_visible_area(&Rect { left: 5, top: 5, right: 10, bottom: 4 }));
}

#[test]
fn user_window_filter() {
    let r = Rect { left: 0, top: 0, right: 800, bottom: 600 };
    assert!(is_user_window(true, 0, "Editor", "Notepad", &r));
    assert!(!is_user_window(false, 0, "Editor", "Notepad", &r));
    assert!(!is_user_window(true, WS_EX_TOOLWINDOW, "Editor", "Notepad", &r));
    assert!(!is_user_window(true, WS_EX_NOACTIVATE, "Editor", "Notepad", &r));
    assert!(!is_user_window(true, 0, "Default IME", "Notepad", &r));
    assert!(!is_user_window(true, 0, "Taskbar", "Shell_TrayWnd", &r));
    let empty = Rect { left: 0, top: 0, right: 0, bottom: 0 };
    assert!(!is_user_window(true, 0, "Editor", "Notepad", &empty));
}

#[test]
fn eligibility() {
    assert!(is_eligible(false, true, 5, true, true));
    assert!(!is_eligible(true, true, 5, true, true));
    assert!(!is_eligible(false, false, 5, true, true));
    assert!(!is_eligible(false, true, 0, true, true));
    assert!(!is_eligible(false, true, 5, false, true));
    assert!(!is_eligible(false, true, 5, true, false));
}

#[test]
fn exclude_panel_handle() {
    assert_eq!(without_handle(&vec![1, 7, 2, 7, 3], 7), vec![1, 2, 3]);
    assert_eq!(without_handle(&vec![], 7), Vec::<isize>::new());
}

#[test]
fn executable_basename() {
    assert_eq!(exe_basename(r"C:\Program Files\Google\Chrome\chrome.exe"), "chrome.exe");
    assert_eq!(exe_basename("notepad.exe"), "notepad.exe");
    assert_eq!(exe_basename(r"C:\dir\"), "");
    assert_eq!(exe_basename(r"C:\文件\微信.exe"), "微信.exe");
}

#[test]
fn class_name_buffer_length() {
    assert_eq!(nul_terminated_len(&[65, 66, 0, 67]), 2);
    assert_eq!(nul_terminated_len(&[0, 1]), 0);
    assert_eq!(nul_terminated_len(&[65, 66]), 0);
}

#[test]
fn live_window_list_drops_own_untitled_and_unknown() {
    let cands = vec![
        (1isize, Some("chrome.exe".to_string()), "Docs".to_string()),
        (2, Some("snapdock.exe".to_string()), "Panel".to_string()),
        (3, None, "Unknown".to_string()),
        (4, Some("code.exe".to_string()), String::new()),
        (5, Some("code.exe".to_string()), "main.rs".to_string()),
    ];
    let live = live_windows(&cands, "snapdock.exe");
    let got: Vec<(isize, String, String)> =
        live.into_iter().map(|w| (w.hwnd, w.exe, w.title)).collect();
    assert_eq!(
        got,
        vec![
            (1, "chrome.exe".to_string(), "Docs".to_string()),
            (5, "code.exe".to_string(), "main.rs".to_string())
        ]
    );
}
