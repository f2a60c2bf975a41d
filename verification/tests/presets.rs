use snapdock::layout::{LayoutState, Rect};
use snapdock::presets::{
    cancel_save, capture, confirm_save, load_on_startup, match_workspace, notice_for_restore,
    notice_for_save, request_save, restore, temporary_windows, LiveWindow, PresetStore,
    RestoreResult, SaveResult, Scheme, SlotSig,
};

fn rect(left: i32, top: i32, right: i32, bottom: i32) -> Rect {
    Rect { left, top, right, bottom }
}

fn sig(exe: &str, title: &str) -> SlotSig {
    SlotSig { exe: exe.to_string(), title: title.to_string(), rect: rect(0, 0, 100, 100) }
}

fn placed(exe: &str, title: &str, r: Rect) -> SlotSig {
    SlotSig { exe: exe.to_string(), title: title.to_string(), rect: r }
}

fn live(hwnd: isize, exe: &str, title: &str) -> LiveWindow {
    LiveWindow { hwnd, exe: exe.to_string(), title: title.to_string() }
}

fn scheme(wins: Vec<SlotSig>) -> Scheme {
    Scheme { wins }
}

fn saved_keys(store: &PresetStore, slot: usize) -> Option<Vec<(String, String)>> {
    store.schemes()[slot]
        .as_ref()
        .map(|s| s.wins.iter().map(|w| (w.exe.clone(), w.title.clone())).collect())
}

fn key(exe: &str, title: &str) -> (String, String) {
    (exe.to_string(), title.to_string())
}

#[test]
fn save_into_empty_slot_is_immediate() {
    let mut store = PresetStore::new();
    let r = request_save(&mut store, 1, Some(scheme(vec![sig("a.exe", "A")])));
    assert_eq!(r, SaveResult::Saved(1));
    assert_eq!(saved_keys(&store, 1), Some(vec![key("a.exe", "A")]));
    assert_eq!(store.pending(), None);
}

#[test]
fn save_without_windows_reports_no_layout() {
    let mut store = PresetStore::new();
    assert_eq!(request_save(&mut store, 0, None), SaveResult::NoLayout);
    // even for a slot that does not exist: nothing is captured, so nothing is indexed
    assert_eq!(request_save(&mut store, 9, None), SaveResult::NoLayout);
    assert!(store.schemes().iter().all(|s| s.is_none()));
}

#[test]
fn overwrite_asks_then_confirm_stores_current_workspace() {
    let mut store = PresetStore::new();
    request_save(&mut store, 0, Some(scheme(vec![sig("a.exe", "A")])));
    let r = request_save(&mut store, 0, Some(scheme(vec![sig("b.exe", "B")])));
    assert_eq!(r, SaveResult::Confirm(0));
    assert_eq!(store.pending(), Some(0));
    assert_eq!(saved_keys(&store, 0), Some(vec![key("a.exe", "A")]));
    // confirming another slot does nothing
    assert!(!confirm_save(&mut store, 1, Some(scheme(vec![]))));
    assert_eq!(store.pending(), Some(0));
    // the workspace at confirmation time is what gets saved
    assert!(confirm_save(&mut store, 0, Some(scheme(vec![sig("c.exe", "C")]))));
    assert_eq!(store.pending(), None);
    assert_eq!(saved_keys(&store, 0), Some(vec![key("c.exe", "C")]));
}

#[test]
fn confirm_without_windows_drops_the_question() {
    let mut store = PresetStore::new();
    request_save(&mut store, 2, Some(scheme(vec![sig("a.exe", "A")])));
    request_save(&mut store, 2, Some(scheme(vec![sig("b.exe", "B")])));
    assert!(!confirm_save(&mut store, 2, None));
    assert_eq!(store.pending(), None);
    assert_eq!(saved_keys(&store, 2), Some(vec![key("a.exe", "A")]));
}

#[test]
fn cancel_keeps_old_workspace() {
    let mut store = PresetStore::new();
    request_save(&mut store, 3, Some(scheme(vec![sig("a.exe", "A")])));
    request_save(&mut store, 3, Some(scheme(vec![sig("b.exe", "B")])));
    cancel_save(&mut store);
    assert_eq!(store.pending(), None);
    assert!(!confirm_save(&mut store, 3, Some(scheme(vec![]))));
    assert_eq!(saved_keys(&store, 3), Some(vec![key("a.exe", "A")]));
}

#[test]
fn restore_empty_slot() {
    let store = PresetStore::new();
    let mut state = Some(LayoutState { mode: 2, slots: vec![1, 2] });
    let (r, plan) = restore(&store, &mut state, 0, &vec![live(1, "a.exe", "A")]);
    assert_eq!(r, RestoreResult::Empty(0));
    assert!(plan.is_none());
    assert!(state.is_some());
}

#[test]
fn restore_without_matching_window() {
    let mut store = PresetStore::new();
    request_save(&mut store, 0, Some(scheme(vec![sig("a.exe", "A")])));
    let mut state: Option<LayoutState> = None;
    let (r, plan) = restore(&store, &mut state, 0, &vec![live(1, "b.exe", "B")]);
    assert_eq!(r, RestoreResult::NoMatch(0));
    assert!(plan.is_none());
}

#[test]
fn save_then_restore_puts_each_window_back_where_it_was() {
    // windows placed by hand: browser left, editor right top, terminal below
    let mut store = PresetStore::new();
    let browser = rect(0, 0, 700, 1040);
    let editor = rect(700, 0, 1920, 600);
    let term = rect(700, 600, 1920, 1040);
    let captured = capture(&vec![
        (Some("code.exe".to_string()), "main.rs".to_string(), editor),
        (Some("chrome.exe".to_string()), "Docs".to_string(), browser),
        (Some("term.exe".to_string()), "sh".to_string(), term),
    ]);
    assert_eq!(request_save(&mut store, 1, captured), SaveResult::Saved(1));
    // later, the same windows are open in another z-order
    let open = vec![
        live(30, "term.exe", "sh"),
        live(40, "other.exe", "X"),
        live(20, "chrome.exe", "Docs"),
        live(10, "code.exe", "main.rs"),
    ];
    let mut state = Some(LayoutState { mode: 4, slots: vec![10, 20, 30, 40] });
    let (r, plan) = restore(&store, &mut state, 1, &open);
    assert_eq!(r, RestoreResult::Restored(1));
    assert_eq!(plan, Some(vec![(10, editor), (20, browser), (30, term)]));
    // the restored workspace is free-form: no layout stays applied
    assert!(state.is_none());
}

#[test]
fn exact_title_match_wins_over_exe_only() {
    let wins = vec![placed("chrome.exe", "Mail", rect(1, 2, 3, 4))];
    let open = vec![live(1, "chrome.exe", "News"), live(2, "chrome.exe", "Mail")];
    assert_eq!(match_workspace(&wins, &open), vec![(2, rect(1, 2, 3, 4))]);
}

#[test]
fn exe_only_fallback_when_title_changed() {
    let a = rect(0, 0, 10, 10);
    let b = rect(10, 0, 20, 10);
    let wins = vec![placed("chrome.exe", "Old title", a), placed("code.exe", "x", b)];
    let open = vec![live(1, "code.exe", "y"), live(2, "chrome.exe", "New title")];
    assert_eq!(match_workspace(&wins, &open), vec![(2, a), (1, b)]);
}

#[test]
fn each_window_is_used_once() {
    let wins = vec![sig("chrome.exe", "A"), sig("chrome.exe", "A"), sig("chrome.exe", "A")];
    let open = vec![live(1, "chrome.exe", "A"), live(2, "chrome.exe", "B")];
    let got: Vec<isize> = match_workspace(&wins, &open).into_iter().map(|(h, _)| h).collect();
    assert_eq!(got, vec![1, 2]);
}

#[test]
fn temporaries_exclude_workspace_and_off_screen() {
    let open = vec![
        live(1, "a.exe", "A"),
        live(2, "b.exe", "B"),
        live(3, "c.exe", "C"),
        live(4, "d.exe", "D"),
    ];
    let ws = vec![2];
    let on_screen = vec![true, true, false, true];
    assert_eq!(temporary_windows(&open, &ws, &on_screen), vec![1, 4]);
}

#[test]
fn capture_keeps_rects_and_uses_empty_exe_when_unknown() {
    let r1 = rect(0, 0, 500, 400);
    let r2 = rect(500, 0, 1000, 400);
    let windows = vec![(Some("a.exe".to_string()), "A".to_string(), r1), (None, "B".to_string(), r2)];
    let sc = capture(&windows).unwrap();
    assert_eq!(sc.wins.len(), 2);
    assert_eq!(sc.wins[0].exe, "a.exe");
    assert_eq!(sc.wins[0].rect, r1);
    assert_eq!(sc.wins[1].exe, "");
    assert_eq!(sc.wins[1].title, "B");
    assert_eq!(sc.wins[1].rect, r2);
    assert!(capture(&vec![]).is_none());
}

#[test]
fn load_on_startup_replaces_or_keeps() {
    let mut store = PresetStore::new();
    request_save(&mut store, 0, Some(scheme(vec![sig("a.exe", "A")])));
    load_on_startup(&mut store, None);
    assert!(saved_keys(&store, 0).is_some());
    load_on_startup(&mut store, Some(vec![None, Some(scheme(vec![sig("z.exe", "Z")])), None, None]));
    assert!(saved_keys(&store, 0).is_none());
    assert_eq!(saved_keys(&store, 1), Some(vec![key("z.exe", "Z")]));
}

#[test]
fn notices() {
    let n = notice_for_save(SaveResult::Saved(2), 2);
    assert_eq!((n.kind.as_str(), n.slot, n.modal), ("save-saved", 2, false));
    let n = notice_for_save(SaveResult::Confirm(1), 1);
    assert_eq!((n.kind.as_str(), n.slot, n.modal), ("save-confirm", 1, true));
    let n = notice_for_save(SaveResult::NoLayout, 3);
    assert_eq!((n.kind.as_str(), n.slot, n.modal), ("save-nolayout", 3, false));
    let n = notice_for_restore(RestoreResult::Restored(0));
    assert_eq!((n.kind.as_str(), n.slot, n.modal), ("load-restored", 0, false));
    let n = notice_for_restore(RestoreResult::Empty(1));
    assert_eq!((n.kind.as_str(), n.slot, n.modal), ("load-empty", 1, false));
    let n = notice_for_restore(RestoreResult::NoMatch(2));
    assert_eq!((n.kind.as_str(), n.slot, n.modal), ("load-nomatch", 2, false));
}

#[test]
fn retitled_window_returns_to_its_saved_rect() {
    let mut store = PresetStore::new();
    let docs = rect(0, 0, 960, 1040);
    let code = rect(960, 0, 1920, 1040);
    let captured = capture(&vec![
        (Some("chrome.exe".to_string()), "Docs".to_string(), docs),
        (Some("code.exe".to_string()), "main.rs".to_string(), code),
    ]);
    request_save(&mut store, 0, captured);
    // the browser's active tab changed its title since saving
    let open = vec![live(7, "code.exe", "main.rs"), live(8, "chrome.exe", "Mail")];
    let mut state: Option<LayoutState> = None;
    let (r, plan) = restore(&store, &mut state, 0, &open);
    assert_eq!(r, RestoreResult::Restored(0));
    assert_eq!(plan, Some(vec![(8, docs), (7, code)]));
}
