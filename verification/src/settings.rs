use vstd::prelude::*;
use crate::text::chars_of;

verus! {

/// The persisted user settings: the interface language and whether the
/// application starts at logon.
pub struct Settings {
    pub language: String,
    pub launch_at_startup: bool,
}

/// What settings hold, as values.
pub struct SettingsView {
    pub language: Seq<char>,
    pub launch_at_startup: bool,
}

impl View for Settings {
    type V = SettingsView;

    open spec fn view(&self) -> SettingsView {
        SettingsView { language: self.language@, launch_at_startup: self.launch_at_startup }
    }
}

/// The settings used until any are saved: English, no launch at startup.
pub open spec fn default_view() -> SettingsView {
    SettingsView { language: "en"@, launch_at_startup: false }
}

/// The settings in effect given the in-memory cache: the cached ones, or the
/// defaults when none are loaded.
pub open spec fn current_view(cache: Option<Settings>) -> SettingsView {
    match cache {
        Some(s) => s@,
        None => default_view(),
    }
}

/// `v` with the language `lang`.
pub open spec fn with_language(v: SettingsView, lang: Seq<char>) -> SettingsView {
    SettingsView { language: lang, ..v }
}

/// `v` with launch at startup set to `enabled`.
pub open spec fn with_launch(v: SettingsView, enabled: bool) -> SettingsView {
    SettingsView { launch_at_startup: enabled, ..v }
}

/// The language used until one is chosen: English.
pub fn default_language() -> (r: String)
    ensures
        r@ == "en"@,
{
    String::from_str("en")
}

impl Default for Settings {
    fn default() -> (r: Settings)
        ensures
            r@ == default_view(),
    {
        Settings { language: default_language(), launch_at_startup: false }
    }
}

impl Settings {
    /// A copy of these settings.
    pub fn duplicate(&self) -> (r: Settings)
        ensures
            r == *self,
    {
        Settings { language: self.language.clone(), launch_at_startup: self.launch_at_startup }
    }
}

/// Current in-memory settings: the cached ones, or the defaults when none
/// have been loaded.
pub fn get(cache: &Option<Settings>) -> (r: Settings)
    ensures
        r@ == current_view(*cache),
{
    match cache {
        Some(s) => s.duplicate(),
        None => Settings::default(),
    }
}

/// Takes the settings read at startup (`None` when the file is missing or
/// does not parse, which falls back to the defaults), caches them and
/// returns them.
pub fn load(cache: &mut Option<Settings>, parsed: Option<Settings>) -> (r: Settings)
    ensures
        r@ == current_view(parsed),
        current_view(*final(cache)) == r@,
        *final(cache) is Some,
{
    let s = match parsed {
        Some(p) => p,
        None => Settings::default(),
    };
    *cache = Some(s.duplicate());
    s
}

/// Caches `s` as the current settings; the caller writes it to disk.
fn save(cache: &mut Option<Settings>, s: &Settings)
    ensures
        *final(cache) == Some(*s),
{
    *cache = Some(s.duplicate());
}

/// Chooses the interface language (it takes effect on the next launch); the
/// launch flag is kept. Returns the settings to write to disk, which are
/// also cached.
pub fn set_language(cache: &mut Option<Settings>, lang: &str) -> (r: Settings)
    ensures
        r@ == with_language(current_view(*old(cache)), lang@),
        current_view(*final(cache)) == r@,
        *final(cache) is Some,
{
    let mut s = get(cache);
    s.language = String::from_str(lang);
    save(cache, &s);
    s
}

/// Turns launch at startup on or off; the language is kept. Returns the
/// settings to write to disk, which are also cached; the caller also updates
/// the logon entry.
pub fn set_launch_at_startup(cache: &mut Option<Settings>, enabled: bool) -> (r: Settings)
    ensures
        r@ == with_launch(current_view(*old(cache)), enabled),
        current_view(*final(cache)) == r@,
        *final(cache) is Some,
{
    let mut s = get(cache);
    s.launch_at_startup = enabled;
    save(cache, &s);
    s
}

/// The settings to write on quit: whatever is in effect (the defaults when
/// nothing was loaded); they stay cached.
pub fn flush(cache: &mut Option<Settings>) -> (r: Settings)
    ensures
        r@ == current_view(*old(cache)),
        current_view(*final(cache)) == r@,
        *final(cache) is Some,
{
    let s = get(cache);
    save(cache, &s);
    s
}

/// A setting reads back as it was written: after choosing a language, the
/// settings in effect have that language and the launch flag they had; after
/// setting the launch flag, they have that flag and the language they had.
pub proof fn lemma_settings_read_back(v: SettingsView, lang: Seq<char>, enabled: bool)
    ensures
        with_language(v, lang).language == lang,
        with_language(v, lang).launch_at_startup == v.launch_at_startup,
        with_launch(v, enabled).launch_at_startup == enabled,
        with_launch(v, enabled).language == v.language,
{
}

/// The two settings are independent: setting the language and the launch
/// flag gives the same settings in either order.
pub proof fn lemma_settings_independent(v: SettingsView, lang: Seq<char>, enabled: bool)
    ensures
        with_launch(with_language(v, lang), enabled) == with_language(with_launch(v, enabled), lang),
{
}

/// The UTF-16 code units of one character: itself below U+10000, else a
/// surrogate pair.
pub open spec fn utf16_units(c: char) -> Seq<u16> {
    let v = c as u32;
    if v < 0x10000 {
        seq![v as u16]
    } else {
        let u = v - 0x10000;
        seq![(0xD800 + u / 0x400) as u16, (0xDC00 + u % 0x400) as u16]
    }
}

/// The UTF-16 encoding of a character sequence.
pub open spec fn utf16_of(s: Seq<char>) -> Seq<u16>
    decreases s.len(),
{
    if s.len() == 0 {
        Seq::empty()
    } else {
        utf16_of(s.drop_last()) + utf16_units(s.last())
    }
}

/// `s` as a NUL-terminated UTF-16 string, as the system registry calls take
/// it.
pub fn to_wide(s: &str) -> (r: Vec<u16>)
    ensures
        r@ == utf16_of(s@).push(0u16),
{
    let cs = chars_of(s);
    let mut out: Vec<u16> = Vec::new();
    let mut i: usize = 0;
    while i < cs.len()
        invariant
            cs@ == s@,
            i <= cs.len(),
            out@ == utf16_of(cs@.take(i as int)),
        decreases cs.len() - i,
    {
        let c = cs[i];
        let v: u32 = c as u32;
        proof {
            vstd::utf8::char_is_scalar(c);
        }
        assert(cs@.take(i + 1).drop_last() =~= cs@.take(i as int));
        assert(cs@.take(i + 1).last() == c);
        assert(utf16_of(cs@.take(i + 1)) == utf16_of(cs@.take(i as int)) + utf16_units(c));
        assert(v == c as u32);
        let ghost prev = out@;
        if v < 0x10000 {
            out.push(v as u16);
        } else {
            let u: u32 = v - 0x10000;
            assert(u <= 0xFFFFF);
            out.push((0xD800 + u / 0x400) as u16);
            out.push((0xDC00 + u % 0x400) as u16);
        }
        assert(out@ =~= prev + utf16_units(c));
        i = i + 1;
    }
    assert(cs@.take(cs.len() as int) =~= cs@);
    out.push(0);
    out
}

/// The logon entry's command line: the executable path in double quotes, so
/// that spaces in the install folder are kept.
pub fn startup_command(exe: &str) -> (r: String)
    ensures
        r@ == seq!['"'] + exe@ + seq!['"'],
{
    let mut r = String::from_str("\"");
    r.append(exe);
    r.append("\"");
    proof {
        reveal_strlit("\"");
    }
    r
}

} // verus!
