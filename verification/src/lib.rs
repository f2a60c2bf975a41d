//! Verified core of a window-layout manager: layout geometry, slot
//! rotation and swapping, saved workspace presets and persisted settings.
//! Everything that talks to the operating system lives in the app crate.

pub mod layout;
pub mod locale;
pub mod presets;
pub mod settings;
pub mod text;
pub mod windowsutil;
