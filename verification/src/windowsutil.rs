use vstd::prelude::*;
use crate::layout::{Hwnd, Rect};
use crate::presets::LiveWindow;
use crate::text::{chars_of, chars_equal, str_equal, str_starts_with, to_lowercase, lowercase};

verus! {

/// Extended window style of tool windows (never part of a layout).
pub const WS_EX_TOOLWINDOW: i32 = 0x0000_0080;

/// Extended window style of windows that cannot be activated.
pub const WS_EX_NOACTIVATE: i32 = 0x0800_0000;

/// Whether a lowercased window class names an IME or text-services helper:
/// "ime", "ime ...", "msctfime ui", "cicerouiwndframe" or "ctf...".
pub open spec fn helper_class(lc: Seq<char>) -> bool {
    ||| lc == "ime"@
    ||| "ime "@.is_prefix_of(lc)
    ||| lc == "msctfime ui"@
    ||| lc == "cicerouiwndframe"@
    ||| "ctf"@.is_prefix_of(lc)
}

/// Whether a title and class belong to an IME or text-services helper
/// window: such windows share the host's executable name and look like
/// ordinary top-level windows, but must never be tiled, matched or
/// minimized.
pub open spec fn ime_or_helper(title: Seq<char>, class: Seq<char>) -> bool {
    ||| title == "Default IME"@
    ||| title == "MSCTFIME UI"@
    ||| helper_class(lowercase(class))
}

/// Whether the lowercased class `lc` names an IME or text-services helper.
pub fn is_helper_class(lc: &str) -> (r: bool)
    ensures
        r == helper_class(lc@),
{
    str_equal(lc, "ime") || str_starts_with(lc, "ime ") || str_equal(lc, "msctfime ui")
        || str_equal(lc, "cicerouiwndframe") || str_starts_with(lc, "ctf")
}

/// True for IME / text-services helper windows, judged by title and class.
pub fn is_ime_or_helper_raw(title: &str, class: &str) -> (r: bool)
    ensures
        r == ime_or_helper(title@, class@),
{
    if str_equal(title, "Default IME") || str_equal(title, "MSCTFIME UI") {
        return true;
    }
    let lc = to_lowercase(class);
    is_helper_class(lc.as_str())
}

/// Window classes that are never part of a user's working layout: the
/// desktop, its worker and list view, the taskbars, UWP core and frame
/// windows, and the IME and text-services windows.
pub open spec fn denied_class(class: Seq<char>) -> bool {
    ||| class == "Progman"@
    ||| class == "WorkerW"@
    ||| class == "Shell_TrayWnd"@
    ||| class == "Shell_SecondaryTrayWnd"@
    ||| class == "Windows.UI.Core.CoreWindow"@
    ||| class == "ApplicationFrameWindow"@
    ||| class == "IME"@
    ||| class == "MSCTFIME UI"@
    ||| class == "CiceroUIWndFrame"@
    ||| class == "SysListView32"@
}

/// Whether `class` is one of the classes never put in a layout.
pub fn is_denied_class(class: &str) -> (r: bool)
    ensures
        r == denied_class(class@),
{
    str_equal(class, "Progman") || str_equal(class, "WorkerW") || str_equal(class, "Shell_TrayWnd")
        || str_equal(class, "Shell_SecondaryTrayWnd") || str_equal(
        class,
        "Windows.UI.Core.CoreWindow",
    ) || str_equal(class, "ApplicationFrameWindow") || str_equal(class, "IME") || str_equal(
        class,
        "MSCTFIME UI",
    ) || str_equal(class, "CiceroUIWndFrame") || str_equal(class, "SysListView32")
}

/// Whether a window rectangle has a non-empty area.
pub fn has_visible_area(r: &Rect) -> (b: bool)
    ensures
        b == (r.right > r.left && r.bottom > r.top),
{
    r.right > r.left && r.bottom > r.top
}

/// A real user-facing window: alive, not a tool window, activatable, not an
/// IME helper, not a shell class, with a non-empty rectangle.
pub open spec fn user_window(alive: bool, ex_style: i32, title: Seq<char>, class: Seq<char>, rect: Rect) -> bool {
    &&& alive
    &&& ex_style & WS_EX_TOOLWINDOW == 0
    &&& ex_style & WS_EX_NOACTIVATE == 0
    &&& !ime_or_helper(title, class)
    &&& !denied_class(class)
    &&& rect.right > rect.left && rect.bottom > rect.top
}

/// A window with the tool-window bit or the no-activate bit among its
/// extended styles is never a user window, whatever its other style bits;
/// and only those two bits of the extended style matter: two windows that
/// differ in other bits alone are judged alike.
pub proof fn lemma_style_bits_decide(alive: bool, ex_style: i32, other_style: i32, title: Seq<char>, class: Seq<char>, rect: Rect)
    ensures
        ex_style & 0x0000_0080i32 != 0 ==> !user_window(alive, ex_style, title, class, rect),
        ex_style & 0x0800_0000i32 != 0 ==> !user_window(alive, ex_style, title, class, rect),
        ex_style & 0x0800_0080i32 == other_style & 0x0800_0080i32 ==> user_window(
            alive,
            ex_style,
            title,
            class,
            rect,
        ) == user_window(alive, other_style, title, class, rect),
{
    assert((ex_style & 0x0800_0080i32 == other_style & 0x0800_0080i32) ==> (ex_style & 0x0000_0080i32
        == other_style & 0x0000_0080i32 && ex_style & 0x0800_0000i32 == other_style & 0x0800_0000i32))
        by (bit_vector);
}

/// Decides whether a window counts as a user window, from what the system
/// reports of it: whether it is alive, its extended style, title, class and
/// rectangle. Save and restore both filter with this, so they agree.
pub fn is_user_window(alive: bool, ex_style: i32, title: &str, class: &str, rect: &Rect) -> (r: bool)
    ensures
        r == user_window(alive, ex_style, title@, class@, *rect),
        !alive ==> !r,
        ex_style & 0x0000_0080i32 != 0 ==> !r,
        ex_style & 0x0800_0000i32 != 0 ==> !r,
        ime_or_helper(title@, class@) ==> !r,
        denied_class(class@) ==> !r,
        rect.right <= rect.left || rect.bottom <= rect.top ==> !r,
        alive && ex_style & 0x0000_0080i32 == 0 && ex_style & 0x0800_0000i32 == 0 && !ime_or_helper(
            title@,
            class@,
        ) && !denied_class(class@) && rect.right > rect.left && rect.bottom > rect.top ==> r,
{
    if !alive {
        return false;
    }
    if (ex_style & WS_EX_TOOLWINDOW) != 0 {
        return false;
    }
    if (ex_style & WS_EX_NOACTIVATE) != 0 {
        return false;
    }
    if is_ime_or_helper_raw(title, class) {
        return false;
    }
    if is_denied_class(class) {
        return false;
    }
    if !has_visible_area(rect) {
        return false;
    }
    true
}

/// Decides whether a window takes part in an arrangement: not minimized,
/// visible, titled, a user window, and on the target monitor.
pub fn is_eligible(iconic: bool, visible: bool, title_len: i32, user: bool, on_target_monitor: bool) -> (r: bool)
    ensures
        r == (!iconic && visible && title_len > 0 && user && on_target_monitor),
{
    if iconic {
        return false;
    }
    if !visible {
        return false;
    }
    if title_len <= 0 {
        return false;
    }
    if !user {
        return false;
    }
    on_target_monitor
}

/// `list` without the handle `exclude` (the panel's own window), in order.
pub fn without_handle(list: &Vec<Hwnd>, exclude: Hwnd) -> (r: Vec<Hwnd>)
    ensures
        r@ == list@.filter(|h: Hwnd| h != exclude),
{
    let mut out: Vec<Hwnd> = Vec::new();
    let mut i: usize = 0;
    while i < list.len()
        invariant
            i <= list.len(),
            out@ == list@.take(i as int).filter(|h: Hwnd| h != exclude),
        decreases list.len() - i,
    {
        proof {
            reveal_with_fuel(Seq::<_>::filter, 1);
            assert(list@.take(i + 1).drop_last() =~= list@.take(i as int));
        }
        if list[i] != exclude {
            out.push(list[i]);
        }
        i = i + 1;
    }
    assert(list@.take(list.len() as int) =~= list@);
    out
}

/// Index of the last backslash in `s`, or -1.
pub open spec fn last_backslash(s: Seq<char>) -> int
    decreases s.len(),
{
    if s.len() == 0 {
        -1
    } else if s.last() == '\\' {
        s.len() - 1
    } else {
        last_backslash(s.drop_last())
    }
}

/// The part of a Windows path after its last backslash (the whole path when
/// it has none).
pub open spec fn basename(s: Seq<char>) -> Seq<char> {
    s.subrange(last_backslash(s) + 1, s.len() as int)
}

proof fn lemma_last_backslash_bounds(s: Seq<char>)
    ensures
        -1 <= last_backslash(s) < s.len(),
    decreases s.len(),
{
    if s.len() > 0 {
        lemma_last_backslash_bounds(s.drop_last());
    }
}

/// The executable's file name in a full image path, e.g. "chrome.exe".
pub fn exe_basename(path: &str) -> (r: String)
    ensures
        r@ == basename(path@),
{
    let cs = chars_of(path);
    let mut start: usize = 0;
    let mut i: usize = 0;
    while i < cs.len()
        invariant
            cs@ == path@,
            i <= cs.len(),
            start == last_backslash(cs@.take(i as int)) + 1,
        decreases cs.len() - i,
    {
        assert(cs@.take(i + 1).drop_last() =~= cs@.take(i as int));
        if cs[i] == '\\' {
            start = i + 1;
        }
        i = i + 1;
    }
    assert(cs@.take(cs.len() as int) =~= cs@);
    proof {
        lemma_last_backslash_bounds(path@);
    }
    let tail = path.substring_char(start, cs.len());
    String::from_str(tail)
}

/// Length of the text in a NUL-terminated UTF-16 buffer: the index of the
/// first NUL, or 0 when there is none.
pub fn nul_terminated_len(buf: &[u16]) -> (r: usize)
    ensures
        r == match buf@.index_of_first(0u16) {
            Some(i) => i,
            None => 0,
        },
{
    proof {
        buf@.index_of_first_ensures(0u16);
    }
    let mut i: usize = 0;
    while i < buf.len()
        invariant
            i <= buf.len(),
            forall|j: int| 0 <= j < i ==> buf@[j] != 0u16,
        decreases buf.len() - i,
    {
        if buf[i] == 0 {
            assert(buf@[i as int] == 0u16);
            assert(buf@.contains(0u16));
            proof {
                buf@.index_of_first_ensures(0u16);
            }
            let ghost f = buf@.index_of_first(0u16)->0;
            assert(f == i) by {
                if f < i {
                } else if f > i {
                }
            }
            return i;
        }
        i = i + 1;
    }
    assert(!buf@.contains(0u16));
    0
}

/// An enumerated window as values: handle, executable name if known, title.
pub open spec fn meta_view(c: (Hwnd, Option<String>, String)) -> (Hwnd, Option<Seq<char>>, Seq<char>) {
    (
        c.0,
        match c.1 {
            Some(e) => Some(e@),
            None => None,
        },
        c.2@,
    )
}

/// Whether preset restore may use an enumerated window: its executable is
/// known and is not this application's own (`self_exe`), and it has a title.
pub open spec fn keeps_meta(c: (Hwnd, Option<Seq<char>>, Seq<char>), self_exe: Seq<char>) -> bool {
    c.1 matches Some(e) && e != self_exe && c.2.len() > 0
}

/// The live windows kept from the enumerated ones, in order, as
/// `(handle, exe, title)`.
pub open spec fn kept_windows(cands: Seq<(Hwnd, Option<Seq<char>>, Seq<char>)>, self_exe: Seq<char>) -> Seq<(Hwnd, Seq<char>, Seq<char>)> {
    cands.filter(|c: (Hwnd, Option<Seq<char>>, Seq<char>)| keeps_meta(c, self_exe)).map_values(
        |c: (Hwnd, Option<Seq<char>>, Seq<char>)| (c.0, c.1->0, c.2),
    )
}

/// A live window as values.
pub open spec fn live_view(w: LiveWindow) -> (Hwnd, Seq<char>, Seq<char>) {
    (w.hwnd, w.exe@, w.title@)
}

/// Builds the list of live windows for preset restore from, for each
/// enumerated user window, its handle, executable name (if known) and title:
/// drops those of this application (`self_exe`), those whose executable is
/// unknown and untitled ones, keeping the order.
pub fn live_windows(candidates: &Vec<(Hwnd, Option<String>, String)>, self_exe: &str) -> (r: Vec<LiveWindow>)
    ensures
        r@.map_values(|w: LiveWindow| live_view(w)) == kept_windows(
            candidates@.map_values(|c: (Hwnd, Option<String>, String)| meta_view(c)),
            self_exe@,
        ),
{
    let ghost cv = candidates@.map_values(|c: (Hwnd, Option<String>, String)| meta_view(c));
    let ghost keep = |c: (Hwnd, Option<Seq<char>>, Seq<char>)| keeps_meta(c, self_exe@);
    let ghost proj = |c: (Hwnd, Option<Seq<char>>, Seq<char>)| (c.0, c.1->0, c.2);
    let me = chars_of(self_exe);
    let mut out: Vec<LiveWindow> = Vec::new();
    let mut i: usize = 0;
    while i < candidates.len()
        invariant
            cv == candidates@.map_values(|c: (Hwnd, Option<String>, String)| meta_view(c)),
            keep == (|c: (Hwnd, Option<Seq<char>>, Seq<char>)| keeps_meta(c, self_exe@)),
            proj == (|c: (Hwnd, Option<Seq<char>>, Seq<char>)| (c.0, c.1->0, c.2)),
            me@ == self_exe@,
            i <= candidates.len(),
            out@.map_values(|w: LiveWindow| live_view(w)) == cv.take(i as int).filter(keep).map_values(proj),
        decreases candidates.len() - i,
    {
        proof {
            reveal_with_fuel(Seq::<_>::filter, 1);
            assert(cv.take(i + 1).drop_last() =~= cv.take(i as int));
            assert(cv[i as int] == meta_view(candidates@[i as int]));
        }
        let ghost before = out@;
        match &candidates[i].1 {
            Some(e) => {
                let ec = chars_of(e.as_str());
                if !chars_equal(&ec, &me) && candidates[i].2.as_str().unicode_len() > 0 {
                    let w = LiveWindow { hwnd: candidates[i].0, exe: e.clone(), title: candidates[i].2.clone() };
                    out.push(w);
                    assert(out@.map_values(|w: LiveWindow| live_view(w)) =~= before.map_values(
                        |w: LiveWindow| live_view(w),
                    ).push(proj(cv[i as int])));
                }
            },
            None => {},
        }
        i = i + 1;
    }
    assert(cv.take(candidates.len() as int) =~= cv);
    out
}

} // verus!
