# snapdock

The verified core of a Windows window-layout manager: global hotkeys arrange
the open windows into one of four layouts, rotate or swap them between slots,
and save / restore whole workspaces into four preset slots.

- `src/layout.rs` — slot geometry of each layout (with a proof that the slots
  tile the work area), arranging, rotating and swapping windows between slots.
- `src/presets.rs` — the preset store: save every open window's identity and
  rectangle, confirm / cancel an overwrite, restore by matching saved
  (executable, title) identities to open windows and moving each back to its
  saved rectangle.
- `src/settings.rs` — the cached user settings and what gets written to disk;
  UTF-16 strings for the registry.
- `src/windowsutil.rs` — the decisions about which windows count as user
  windows and take part in a layout.
- `src/locale.rs` — the locale file of a language and the tray menu labels.
- `src/text.rs` — character-level string helpers.
- `app/` — the Tauri application: Win32 calls, the tray, hotkeys, animation,
  JSON files and the registry.
