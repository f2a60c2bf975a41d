use vstd::prelude::*;
use crate::layout::{Hwnd, LayoutState, Rect};
use std::collections::HashSet;

verus! {

/// A saved window: its identity (executable name and window title) and the
/// rectangle it occupied. Raw handles only live for one session, so saved
/// workspaces are matched again by identity.
pub struct SlotSig {
    pub exe: String,
    pub title: String,
    pub rect: Rect,
}

impl View for SlotSig {
    type V = (Seq<char>, Seq<char>, Rect);

    open spec fn view(&self) -> (Seq<char>, Seq<char>, Rect) {
        (self.exe@, self.title@, self.rect)
    }
}

/// The identity a saved window is matched by: executable name and title.
pub open spec fn identity(s: SlotSig) -> (Seq<char>, Seq<char>) {
    (s.exe@, s.title@)
}

/// A saved workspace: each window's identity and rectangle, in the order
/// they were captured.
pub struct Scheme {
    pub wins: Vec<SlotSig>,
}

/// What a scheme holds, as values: the identities and, at the same
/// positions, the saved rectangles.
pub struct SchemeView {
    pub wins: Seq<(Seq<char>, Seq<char>)>,
    pub rects: Seq<Rect>,
}

impl View for Scheme {
    type V = SchemeView;

    open spec fn view(&self) -> SchemeView {
        SchemeView {
            wins: self.wins@.map_values(|s: SlotSig| identity(s)),
            rects: self.wins@.map_values(|s: SlotSig| s.rect),
        }
    }
}

/// A live top-level window with its executable name and title.
pub struct LiveWindow {
    pub hwnd: Hwnd,
    pub exe: String,
    pub title: String,
}

/// The number of preset slots.
pub const PRESET_SLOTS: usize = 4;

/// Outcome of a save request.
#[derive(Clone, Copy, Debug, PartialEq, Eq, Structural)]
pub enum SaveResult {
    /// The slot was empty and now holds the current workspace.
    Saved(u8),
    /// The slot already holds a workspace; the save waits for confirmation.
    Confirm(u8),
    /// No window is open to save.
    NoLayout,
}

/// Outcome of a restore request.
#[derive(Clone, Copy, Debug, PartialEq, Eq, Structural)]
pub enum RestoreResult {
    /// The saved workspace was found and is being re-applied.
    Restored(u8),
    /// The slot holds no saved workspace.
    Empty(u8),
    /// None of the saved windows is open.
    NoMatch(u8),
}

/// The saved schemes, one per preset slot, and the slot whose overwrite
/// awaits confirmation.
pub struct PresetStore {
    schemes: Vec<Option<Scheme>>,
    pending: Option<u8>,
}

/// What a preset store holds, as values.
pub struct PresetsView {
    pub schemes: Seq<Option<SchemeView>>,
    pub pending: Option<u8>,
}

pub open spec fn scheme_view(s: Option<Scheme>) -> Option<SchemeView> {
    match s {
        Some(sc) => Some(sc@),
        None => None,
    }
}

impl View for PresetStore {
    type V = PresetsView;

    closed spec fn view(&self) -> PresetsView {
        PresetsView {
            schemes: self.schemes@.map_values(|s: Option<Scheme>| scheme_view(s)),
            pending: self.pending,
        }
    }
}

/// A preset store is well formed: it has one entry per slot, and a pending
/// confirmation names one of them.
pub open spec fn presets_wf(v: PresetsView) -> bool {
    &&& v.schemes.len() == PRESET_SLOTS
    &&& v.pending matches Some(p) ==> p < PRESET_SLOTS
}

/// The store after a save request for `slot` with the current workspace
/// `captured`, and the answer given.
pub open spec fn request_save_spec(v: PresetsView, slot: u8, captured: Option<SchemeView>) -> (PresetsView, SaveResult) {
    match captured {
        None => (v, SaveResult::NoLayout),
        Some(c) => if v.schemes[slot as int] is Some {
            (PresetsView { pending: Some(slot), ..v }, SaveResult::Confirm(slot))
        } else {
            (PresetsView { schemes: v.schemes.update(slot as int, Some(c)), ..v }, SaveResult::Saved(slot))
        },
    }
}

/// The store after confirming the overwrite of `slot` with the current
/// workspace `captured`, and whether the store changed and must be persisted.
pub open spec fn confirm_save_spec(v: PresetsView, slot: u8, captured: Option<SchemeView>) -> (PresetsView, bool) {
    if v.pending != Some(slot) {
        (v, false)
    } else {
        match captured {
            None => (PresetsView { pending: None, ..v }, false),
            Some(c) => (PresetsView { schemes: v.schemes.update(slot as int, Some(c)), pending: None }, true),
        }
    }
}

/// Whether the live window `w` can stand for the saved identity `sig`: the
/// same executable, and with `exact` also the same title.
pub open spec fn candidate(w: LiveWindow, sig: (Seq<char>, Seq<char>), exact: bool) -> bool {
    &&& w.exe@ == sig.0
    &&& exact ==> w.title@ == sig.1
}

/// The lowest index below `n` of a live window that is not yet taken and can
/// stand for `sig`.
pub open spec fn first_free(live: Seq<LiveWindow>, used: Seq<bool>, sig: (Seq<char>, Seq<char>), exact: bool, n: nat) -> Option<int>
    decreases n,
{
    if n == 0 {
        None
    } else {
        match first_free(live, used, sig, exact, (n - 1) as nat) {
            Some(i) => Some(i),
            None => if !used[n - 1] && candidate(live[n - 1], sig, exact) {
                Some(n - 1)
            } else {
                None
            },
        }
    }
}

/// The live window chosen for `sig`: the first free one with the same
/// executable and title, or else the first free one with the same executable.
pub open spec fn pick(live: Seq<LiveWindow>, used: Seq<bool>, sig: (Seq<char>, Seq<char>)) -> Option<int> {
    match first_free(live, used, sig, true, live.len()) {
        Some(i) => Some(i),
        None => first_free(live, used, sig, false, live.len()),
    }
}

/// Matching the first `k` saved windows in order: which live windows are
/// taken, and for each match so far the live handle with the rectangle saved
/// for it (saved windows without a match are skipped).
pub open spec fn assignment(wins: Seq<(Seq<char>, Seq<char>)>, rects: Seq<Rect>, live: Seq<LiveWindow>, k: nat) -> (Seq<bool>, Seq<(Hwnd, Rect)>)
    decreases k,
{
    if k == 0 {
        (Seq::new(live.len(), |i: int| false), Seq::empty())
    } else {
        let (used, picked) = assignment(wins, rects, live, (k - 1) as nat);
        match pick(live, used, wins[k - 1]) {
            Some(i) => (used.update(i, true), picked.push((live[i].hwnd, rects[k - 1]))),
            None => (used, picked),
        }
    }
}

/// Where a saved workspace is restored: each matched open window with the
/// rectangle saved for it, in saved order.
pub open spec fn restore_targets(wins: Seq<(Seq<char>, Seq<char>)>, rects: Seq<Rect>, live: Seq<LiveWindow>) -> Seq<(Hwnd, Rect)> {
    assignment(wins, rects, live, wins.len()).1
}

/// The windows of a list of placements.
pub open spec fn handles(p: Seq<(Hwnd, Rect)>) -> Seq<Hwnd> {
    p.map_values(|x: (Hwnd, Rect)| x.0)
}

/// `first_free` finds the lowest free candidate below `n`, if there is one.
pub proof fn lemma_first_free(live: Seq<LiveWindow>, used: Seq<bool>, sig: (Seq<char>, Seq<char>), exact: bool, n: nat)
    requires
        n <= live.len(),
        n <= used.len(),
    ensures
        match first_free(live, used, sig, exact, n) {
            Some(i) => 0 <= i < n && !used[i] && candidate(live[i], sig, exact) && forall|j: int|
                0 <= j < i ==> !(!used[j] && candidate(#[trigger] live[j], sig, exact)),
            None => forall|j: int| 0 <= j < n ==> !(!used[j] && candidate(#[trigger] live[j], sig, exact)),
        },
    decreases n,
{
    if n > 0 {
        lemma_first_free(live, used, sig, exact, (n - 1) as nat);
    }
}

proof fn lemma_first_free_stable(live: Seq<LiveWindow>, used: Seq<bool>, sig: (Seq<char>, Seq<char>), exact: bool, m: nat, n: nat)
    requires
        m <= n,
        first_free(live, used, sig, exact, m) is Some,
    ensures
        first_free(live, used, sig, exact, n) == first_free(live, used, sig, exact, m),
    decreases n - m,
{
    if m < n {
        lemma_first_free_stable(live, used, sig, exact, m, (n - 1) as nat);
    }
}

/// The first live window, not taken yet, that can stand for `sig`.
fn find_free(live: &Vec<LiveWindow>, used: &Vec<bool>, sig: &SlotSig, exact: bool) -> (r: Option<usize>)
    requires
        used.len() == live.len(),
    ensures
        match r {
            Some(i) => first_free(live@, used@, identity(*sig), exact, live.len() as nat) == Some(i as int),
            None => first_free(live@, used@, identity(*sig), exact, live.len() as nat) is None,
        },
{
    let n = live.len();
    let mut i: usize = 0;
    while i < n
        invariant
            n == live.len(),
            used.len() == n,
            i <= n,
            first_free(live@, used@, identity(*sig), exact, i as nat) is None,
        decreases n - i,
    {
        if !used[i] && live[i].exe == sig.exe && (!exact || live[i].title == sig.title) {
            assert(first_free(live@, used@, identity(*sig), exact, (i + 1) as nat) == Some(i as int));
            proof {
                lemma_first_free_stable(live@, used@, identity(*sig), exact, (i + 1) as nat, n as nat);
            }
            return Some(i);
        }
        i = i + 1;
    }
    None
}

/// Matches each saved window, in saved order, to a live window not taken
/// yet: the first with the same executable and title wins, else the first
/// with the same executable (the title may have changed since saving).
/// Saved windows with no match are skipped. Returns each chosen handle with
/// the rectangle saved for it.
pub fn match_workspace(wins: &Vec<SlotSig>, live: &Vec<LiveWindow>) -> (r: Vec<(Hwnd, Rect)>)
    ensures
        r@ == restore_targets(
            wins@.map_values(|s: SlotSig| identity(s)),
            wins@.map_values(|s: SlotSig| s.rect),
            live@,
        ),
{
    let ghost keys = wins@.map_values(|s: SlotSig| identity(s));
    let ghost rects = wins@.map_values(|s: SlotSig| s.rect);
    let mut used: Vec<bool> = Vec::new();
    let mut j: usize = 0;
    while j < live.len()
        invariant
            j <= live.len(),
            used.len() == j,
            forall|i: int| 0 <= i < j ==> !used[i],
        decreases live.len() - j,
    {
        used.push(false);
        j = j + 1;
    }
    assert(used@ =~= assignment(keys, rects, live@, 0).0);
    let mut out: Vec<(Hwnd, Rect)> = Vec::new();
    let mut k: usize = 0;
    while k < wins.len()
        invariant
            keys == wins@.map_values(|s: SlotSig| identity(s)),
            rects == wins@.map_values(|s: SlotSig| s.rect),
            k <= wins.len(),
            used.len() == live.len(),
            used@ == assignment(keys, rects, live@, k as nat).0,
            out@ == assignment(keys, rects, live@, k as nat).1,
        decreases wins.len() - k,
    {
        let sig = &wins[k];
        assert(keys[k as int] == identity(*sig));
        assert(rects[k as int] == sig.rect);
        let best = match find_free(live, &used, sig, true) {
            Some(i) => Some(i),
            None => find_free(live, &used, sig, false),
        };
        proof {
            lemma_first_free(live@, used@, identity(*sig), true, live.len() as nat);
            lemma_first_free(live@, used@, identity(*sig), false, live.len() as nat);
        }
        match best {
            Some(i) => {
                used.set(i, true);
                out.push((live[i].hwnd, sig.rect));
            },
            None => {},
        }
        k = k + 1;
    }
    out
}

/// Every live window is used at most once: when the live handles are
/// distinct, so are the windows a workspace is restored onto, and there are
/// no more of them than saved windows.
pub proof fn lemma_matched_distinct(wins: Seq<(Seq<char>, Seq<char>)>, rects: Seq<Rect>, live: Seq<LiveWindow>)
    requires
        live.map_values(|w: LiveWindow| w.hwnd).no_duplicates(),
    ensures
        handles(restore_targets(wins, rects, live)).no_duplicates(),
        restore_targets(wins, rects, live).len() <= wins.len(),
{
    lemma_assignment_distinct(wins, rects, live, wins.len());
}

proof fn lemma_assignment_distinct(wins: Seq<(Seq<char>, Seq<char>)>, rects: Seq<Rect>, live: Seq<LiveWindow>, k: nat)
    requires
        k <= wins.len(),
        live.map_values(|w: LiveWindow| w.hwnd).no_duplicates(),
    ensures
        assignment(wins, rects, live, k).0.len() == live.len(),
        handles(assignment(wins, rects, live, k).1).no_duplicates(),
        assignment(wins, rects, live, k).1.len() <= k,
        forall|i: int|
            0 <= i < live.len() ==> (#[trigger] assignment(wins, rects, live, k).0[i] <==> handles(
                assignment(wins, rects, live, k).1,
            ).contains(live[i].hwnd)),
    decreases k,
{
    let hs = live.map_values(|w: LiveWindow| w.hwnd);
    if k > 0 {
        lemma_assignment_distinct(wins, rects, live, (k - 1) as nat);
        let used = assignment(wins, rects, live, (k - 1) as nat).0;
        let picked = assignment(wins, rects, live, (k - 1) as nat).1;
        let ph = handles(picked);
        lemma_first_free(live, used, wins[k - 1], true, live.len());
        lemma_first_free(live, used, wins[k - 1], false, live.len());
        match pick(live, used, wins[k - 1]) {
            Some(i) => {
                let nu = used.update(i, true);
                let np = picked.push((live[i].hwnd, rects[k - 1]));
                let nh = ph.push(live[i].hwnd);
                assert(handles(np) =~= nh);
                assert(assignment(wins, rects, live, k) == (nu, np));
                assert(!ph.contains(live[i].hwnd));
                assert forall|i2: int| 0 <= i2 < live.len() implies (#[trigger] nu[i2] <==> nh.contains(live[i2].hwnd)) by {
                    if i2 != i {
                        assert(hs[i2] == live[i2].hwnd);
                        assert(hs[i] == live[i].hwnd);
                        assert(live[i2].hwnd != live[i].hwnd);
                        if nh.contains(live[i2].hwnd) {
                            let m = choose|m: int| 0 <= m < nh.len() && nh[m] == live[i2].hwnd;
                            assert(m < ph.len());
                            assert(ph.contains(live[i2].hwnd));
                        }
                        if ph.contains(live[i2].hwnd) {
                            let m = choose|m: int| 0 <= m < ph.len() && ph[m] == live[i2].hwnd;
                            assert(nh[m] == live[i2].hwnd);
                        }
                    } else {
                        assert(nh[nh.len() - 1] == live[i].hwnd);
                    }
                }
            },
            None => {
                assert(assignment(wins, rects, live, k) == (used, picked));
            },
        }
    }
}

/// Whether the live window at `i` is the only one with the executable and
/// title of `sig`.
pub open spec fn only_exact_match(live: Seq<LiveWindow>, sig: (Seq<char>, Seq<char>), i: int) -> bool {
    &&& 0 <= i < live.len()
    &&& candidate(live[i], sig, true)
    &&& forall|j: int| 0 <= j < live.len() && j != i ==> !candidate(#[trigger] live[j], sig, true)
}

/// Whether the live window at `i` is the one a saved identity unambiguously
/// belongs to: the only open window with its executable and title, or, when
/// no open window has that title any more (it changed since saving), the
/// only open window with its executable.
pub open spec fn sole_match(live: Seq<LiveWindow>, sig: (Seq<char>, Seq<char>), i: int) -> bool {
    ||| only_exact_match(live, sig, i)
    ||| {
        &&& 0 <= i < live.len()
        &&& forall|j: int| 0 <= j < live.len() ==> !candidate(#[trigger] live[j], sig, true)
        &&& candidate(live[i], sig, false)
        &&& forall|j: int| 0 <= j < live.len() && j != i ==> !candidate(#[trigger] live[j], sig, false)
    }
}

/// Restoring brings the saved workspace back: when each saved window
/// belongs unambiguously to one open window (the one at `found[k]` for saved
/// window `k`: the only one with its executable and title, or, if its title
/// changed, the only one with its executable), and no two saved windows
/// belong to the same open window, every saved window is found and goes back
/// to the rectangle saved for it, in saved order.
pub proof fn lemma_restore_finds_saved(wins: Seq<(Seq<char>, Seq<char>)>, rects: Seq<Rect>, live: Seq<LiveWindow>, found: Seq<int>)
    requires
        rects.len() == wins.len(),
        found.len() == wins.len(),
        found.no_duplicates(),
        forall|k: int| 0 <= k < wins.len() ==> sole_match(live, wins[k], #[trigger] found[k]),
    ensures
        restore_targets(wins, rects, live) == Seq::new(wins.len(), |k: int| (live[found[k]].hwnd, rects[k])),
{
    lemma_assignment_finds(wins, rects, live, found, wins.len());
    assert(restore_targets(wins, rects, live) =~= Seq::new(wins.len(), |k: int| (live[found[k]].hwnd, rects[k])));
}

proof fn lemma_assignment_finds(wins: Seq<(Seq<char>, Seq<char>)>, rects: Seq<Rect>, live: Seq<LiveWindow>, found: Seq<int>, k: nat)
    requires
        k <= wins.len(),
        found.len() == wins.len(),
        found.no_duplicates(),
        forall|m: int| 0 <= m < wins.len() ==> sole_match(live, wins[m], #[trigger] found[m]),
    ensures
        assignment(wins, rects, live, k).0.len() == live.len(),
        forall|i: int|
            0 <= i < live.len() ==> (#[trigger] assignment(wins, rects, live, k).0[i] <==> found.take(
                k as int,
            ).contains(i)),
        assignment(wins, rects, live, k).1 == Seq::new(k, |m: int| (live[found[m]].hwnd, rects[m])),
    decreases k,
{
    if k == 0 {
        assert(assignment(wins, rects, live, 0).1 =~= Seq::new(0, |m: int| (live[found[m]].hwnd, rects[m])));
        assert forall|i: int| 0 <= i < live.len() implies (#[trigger] assignment(wins, rects, live, k).0[i]
            <==> found.take(k as int).contains(i)) by {
            assert(found.take(0).len() == 0);
        }
    } else {
        let p = (k - 1) as nat;
        lemma_assignment_finds(wins, rects, live, found, p);
        let used = assignment(wins, rects, live, p).0;
        let picked = assignment(wins, rects, live, p).1;
        let sig = wins[p as int];
        let e = found[p as int];
        assert(sole_match(live, sig, e));
        assert(!used[e]) by {
            if used[e] {
                assert(found.take(p as int).contains(e));
                let m = choose|m: int| 0 <= m < found.take(p as int).len() && found.take(p as int)[m] == e;
                assert(found[m] == e);
                assert(found[p as int] == e);
            }
        }
        lemma_first_free(live, used, sig, true, live.len());
        lemma_first_free(live, used, sig, false, live.len());
        if only_exact_match(live, sig, e) {
            assert(first_free(live, used, sig, true, live.len()) == Some(e));
        } else {
            assert(first_free(live, used, sig, true, live.len()) is None);
            assert(first_free(live, used, sig, false, live.len()) == Some(e));
        }
        assert(pick(live, used, sig) == Some(e));
        let nu = used.update(e, true);
        let np = picked.push((live[e].hwnd, rects[p as int]));
        assert(assignment(wins, rects, live, k) == (nu, np));
        assert(np =~= Seq::new(k, |m: int| (live[found[m]].hwnd, rects[m])));
        assert(found.take(k as int) =~= found.take(p as int).push(e));
        assert forall|i: int| 0 <= i < live.len() implies (#[trigger] nu[i] <==> found.take(
            k as int,
        ).contains(i)) by {
            if i == e {
                assert(found.take(k as int)[p as int] == e);
            } else {
                if found.take(k as int).contains(i) {
                    let m = choose|m: int| 0 <= m < found.take(k as int).len() && found.take(k as int)[m] == i;
                    assert(found.take(p as int)[m] == i);
                }
                if found.take(p as int).contains(i) {
                    let m = choose|m: int| 0 <= m < found.take(p as int).len() && found.take(p as int)[m] == i;
                    assert(found.take(k as int)[m] == i);
                }
            }
        }
    }
}

impl PresetStore {
    /// A store with every slot empty and nothing pending.
    pub fn new() -> (r: PresetStore)
        ensures
            presets_wf(r@),
            r@.schemes == Seq::new(PRESET_SLOTS as nat, |i: int| None::<SchemeView>),
            r@.pending is None,
    {
        let mut schemes: Vec<Option<Scheme>> = Vec::new();
        schemes.push(None);
        schemes.push(None);
        schemes.push(None);
        schemes.push(None);
        let r = PresetStore { schemes, pending: None };
        assert(r@.schemes =~= Seq::new(PRESET_SLOTS as nat, |i: int| None::<SchemeView>));
        r
    }

    /// The saved schemes, one per slot (to write them to disk).
    pub fn schemes(&self) -> (r: &Vec<Option<Scheme>>)
        ensures
            r@.map_values(|s: Option<Scheme>| scheme_view(s)) == self@.schemes,
    {
        &self.schemes
    }

    /// The slot whose overwrite awaits confirmation, if any.
    pub fn pending(&self) -> (r: Option<u8>)
        ensures
            r == self@.pending,
    {
        self.pending
    }
}

/// Takes the schemes read from disk at startup, one per slot; `None` (no
/// file, or one that does not parse) leaves the store as it is.
pub fn load_on_startup(store: &mut PresetStore, parsed: Option<Vec<Option<Scheme>>>)
    requires
        presets_wf(old(store)@),
        parsed matches Some(v) ==> v.len() == PRESET_SLOTS,
    ensures
        presets_wf(final(store)@),
        match parsed {
            Some(v) => final(store)@.schemes == v@.map_values(|s: Option<Scheme>| scheme_view(s)),
            None => final(store)@.schemes == old(store)@.schemes,
        },
        final(store)@.pending == old(store)@.pending,
{
    if let Some(v) = parsed {
        store.schemes = v;
    }
}

/// Save request for `slot` with the current workspace `captured` (`None`
/// when no window is open). An empty slot takes the workspace at once
/// (`Saved`, to be persisted); an occupied one is left as it is and the save
/// waits for `confirm_save` (`Confirm`); with nothing captured nothing
/// changes (`NoLayout`). The slot must exist whenever there is something to
/// save.
pub fn request_save(store: &mut PresetStore, slot: u8, captured: Option<Scheme>) -> (r: SaveResult)
    requires
        presets_wf(old(store)@),
        captured is Some ==> slot < PRESET_SLOTS,
    ensures
        presets_wf(final(store)@),
        (final(store)@, r) == request_save_spec(old(store)@, slot, scheme_view(captured)),
        captured is None ==> r == SaveResult::NoLayout && final(store)@ == old(store)@,
        captured is Some ==> forall|j: int|
            0 <= j < PRESET_SLOTS && j != slot ==> #[trigger] final(store)@.schemes[j] == old(store)@.schemes[j],
        captured matches Some(c) ==> (old(store)@.schemes[slot as int] is None ==> r == SaveResult::Saved(slot)
            && final(store)@.schemes[slot as int] == Some(c@) && final(store)@.pending == old(store)@.pending),
        captured is Some && old(store)@.schemes[slot as int] is Some ==> r == SaveResult::Confirm(slot)
            && final(store)@.schemes == old(store)@.schemes && final(store)@.pending == Some(slot),
{
    match captured {
        None => SaveResult::NoLayout,
        Some(c) => {
            let s = slot as usize;
            if store.schemes[s].is_some() {
                store.pending = Some(slot);
                SaveResult::Confirm(slot)
            } else {
                store.schemes.set(s, Some(c));
                assert(store@.schemes =~= old(store)@.schemes.update(slot as int, Some(c@)));
                SaveResult::Saved(slot)
            }
        },
    }
}

/// Confirms the pending overwrite of `slot` with the workspace as it is now
/// (`captured`). Returns whether the store changed and must be persisted.
/// Unless `slot` is the pending one nothing happens; with nothing captured the
/// pending confirmation is dropped.
pub fn confirm_save(store: &mut PresetStore, slot: u8, captured: Option<Scheme>) -> (changed: bool)
    requires
        presets_wf(old(store)@),
    ensures
        presets_wf(final(store)@),
        (final(store)@, changed) == confirm_save_spec(old(store)@, slot, scheme_view(captured)),
{
    if store.pending != Some(slot) {
        return false;
    }
    match captured {
        None => {
            store.pending = None;
            false
        },
        Some(c) => {
            store.schemes.set(slot as usize, Some(c));
            store.pending = None;
            assert(store@.schemes =~= old(store)@.schemes.update(slot as int, Some(c@)));
            true
        },
    }
}

/// Drops the pending confirmation; the schemes stay as they are.
pub fn cancel_save(store: &mut PresetStore)
    requires
        presets_wf(old(store)@),
    ensures
        presets_wf(final(store)@),
        final(store)@.schemes == old(store)@.schemes,
        final(store)@.pending is None,
{
    store.pending = None;
}

/// The outcome of a restore request for `slot` over the open windows
/// `live`: the answer, and where each found window goes when the workspace
/// is found.
pub open spec fn restore_spec(v: PresetsView, slot: u8, live: Seq<LiveWindow>) -> (RestoreResult, Option<Seq<(Hwnd, Rect)>>) {
    match v.schemes[slot as int] {
        None => (RestoreResult::Empty(slot), None),
        Some(sc) => {
            let targets = restore_targets(sc.wins, sc.rects, live);
            if targets.len() == 0 {
                (RestoreResult::NoMatch(slot), None)
            } else {
                (RestoreResult::Restored(slot), Some(targets))
            }
        },
    }
}

/// Restore request for `slot` over the open windows `live`: `Empty` when
/// the slot holds nothing, `NoMatch` when none of the saved windows is open,
/// else `Restored` with each found window and the rectangle saved for it
/// (see `match_workspace`); those windows are to be raised and moved there.
/// A restored workspace is free-form, so no layout stays applied: `state`
/// is cleared then, and left alone otherwise. The slot must exist.
pub fn restore(store: &PresetStore, state: &mut Option<LayoutState>, slot: u8, live: &Vec<LiveWindow>) -> (r: (RestoreResult, Option<Vec<(Hwnd, Rect)>>))
    requires
        presets_wf(store@),
        slot < PRESET_SLOTS,
    ensures
        r.0 == restore_spec(store@, slot, live@).0,
        match restore_spec(store@, slot, live@).1 {
            Some(t) => r.1 matches Some(v) && v@ == t && *final(state) is None,
            None => r.1 is None && *final(state) == *old(state),
        },
        r.0 == RestoreResult::Empty(slot) <==> store@.schemes[slot as int] is None,
        r.0 == RestoreResult::NoMatch(slot) ==> (store@.schemes[slot as int] matches Some(sc) && forall|k: int, i: int|
            0 <= k < sc.wins.len() && 0 <= i < live.len() ==> #[trigger] live@[i].exe@ != #[trigger] sc.wins[k].0),
        r.0 == RestoreResult::Restored(slot) ==> (r.1 matches Some(v) && v.len() > 0),
        store@.schemes[slot as int] matches Some(sc) ==> forall|k: int, i: int|
            0 <= k < sc.wins.len() && 0 <= i < live.len() && #[trigger] live@[i].exe@ == #[trigger] sc.wins[k].0
                ==> (r.1 matches Some(v) && moves_exe(v@, live@, sc.wins[k].0)),
{
    proof {
        if store@.schemes[slot as int] is Some {
            lemma_restore_moves_what_is_open(store@, slot, live@);
            lemma_open_executables_moved(store@, slot, live@);
        }
    }
    let s = slot as usize;
    match &store.schemes[s] {
        None => (RestoreResult::Empty(slot), None),
        Some(sc) => {
            assert(store@.schemes[slot as int] == Some(sc@));
            let targets = match_workspace(&sc.wins, live);
            if targets.len() == 0 {
                (RestoreResult::NoMatch(slot), None)
            } else {
                *state = None;
                (RestoreResult::Restored(slot), Some(targets))
            }
        },
    }
}

/// The open windows to tuck away after a restore: in `live` order, those not
/// part of the restored `workspace` whose flag in `on_screen` is set (on the
/// workspace's monitor, visible and not minimized).
pub open spec fn temporaries(live: Seq<LiveWindow>, workspace: Seq<Hwnd>, on_screen: Seq<bool>, n: nat) -> Seq<Hwnd>
    decreases n,
{
    if n == 0 {
        Seq::empty()
    } else {
        let prev = temporaries(live, workspace, on_screen, (n - 1) as nat);
        let h = live[n - 1].hwnd;
        if !workspace.contains(h) && on_screen[n - 1] {
            prev.push(h)
        } else {
            prev
        }
    }
}

/// Whether `h` is one of the first `n` live windows that is flagged on
/// screen and is not a workspace window.
pub open spec fn on_screen_outside(live: Seq<LiveWindow>, workspace: Seq<Hwnd>, on_screen: Seq<bool>, n: int, h: Hwnd) -> bool {
    exists|i: int| 0 <= i < n && on_screen[i] && !workspace.contains(live[i].hwnd) && #[trigger] live[i].hwnd == h
}

/// After a restore, exactly the on-screen windows outside the workspace are
/// tucked away: a window is in the result if and only if it is a live window
/// flagged on screen that is not a workspace window.
pub proof fn lemma_temporaries(live: Seq<LiveWindow>, workspace: Seq<Hwnd>, on_screen: Seq<bool>, n: nat)
    requires
        n <= live.len(),
        on_screen.len() == live.len(),
    ensures
        forall|h: Hwnd|
            #[trigger] temporaries(live, workspace, on_screen, n).contains(h) <==> on_screen_outside(
                live,
                workspace,
                on_screen,
                n as int,
                h,
            ),
    decreases n,
{
    if n > 0 {
        let p = (n - 1) as nat;
        lemma_temporaries(live, workspace, on_screen, p);
        let prev = temporaries(live, workspace, on_screen, p);
        let cur = temporaries(live, workspace, on_screen, n);
        let hp = live[p as int].hwnd;
        assert forall|h: Hwnd| #[trigger] cur.contains(h) <==> on_screen_outside(live, workspace, on_screen, n as int, h) by {
            if on_screen_outside(live, workspace, on_screen, p as int, h) {
                let i = choose|i: int| 0 <= i < p && on_screen[i] && !workspace.contains(live[i].hwnd) && #[trigger] live[i].hwnd == h;
                assert(on_screen_outside(live, workspace, on_screen, n as int, h));
            }
            if on_screen_outside(live, workspace, on_screen, n as int, h) {
                let i = choose|i: int| 0 <= i < n && on_screen[i] && !workspace.contains(live[i].hwnd) && #[trigger] live[i].hwnd == h;
                if i < p {
                    assert(on_screen_outside(live, workspace, on_screen, p as int, h));
                }
            }
            if !workspace.contains(hp) && on_screen[p as int] {
                assert(cur == prev.push(hp));
                if prev.contains(h) {
                    let m = choose|m: int| 0 <= m < prev.len() && prev[m] == h;
                    assert(cur[m] == h);
                }
                if cur.contains(h) && h != hp {
                    let m = choose|m: int| 0 <= m < cur.len() && cur[m] == h;
                    assert(m < prev.len());
                    assert(prev[m] == h);
                }
                if h == hp {
                    assert(cur[prev.len() as int] == h);
                }
            } else {
                assert(cur == prev);
            }
        }
    }
}

/// The windows to minimize after restoring `workspace`: every live window
/// outside the workspace that is on screen (per `on_screen`, one flag per
/// live window), in `live` order. Workspace windows are never included.
pub fn temporary_windows(live: &Vec<LiveWindow>, workspace: &Vec<Hwnd>, on_screen: &Vec<bool>) -> (r: Vec<Hwnd>)
    requires
        on_screen.len() == live.len(),
    ensures
        r@ == temporaries(live@, workspace@, on_screen@, live.len() as nat),
        forall|i: int| 0 <= i < r.len() ==> !workspace@.contains(#[trigger] r[i]),
        forall|h: Hwnd|
            #[trigger] r@.contains(h) <==> exists|i: int|
                0 <= i < live.len() && on_screen[i] && !workspace@.contains(live@[i].hwnd) && live@[i].hwnd == h,
{
    broadcast use vstd::std_specs::hash::group_hash_axioms;

    let mut ws: HashSet<Hwnd> = HashSet::new();
    let mut j: usize = 0;
    while j < workspace.len()
        invariant
            j <= workspace.len(),
            forall|h: Hwnd| ws@.contains(h) <==> exists|m: int| 0 <= m < j && workspace@[m] == h,
        decreases workspace.len() - j,
    {
        ws.insert(workspace[j]);
        j = j + 1;
    }
    assert forall|h: Hwnd| ws@.contains(h) <==> workspace@.contains(h) by {
        if workspace@.contains(h) {
            let m = choose|m: int| 0 <= m < workspace.len() && workspace@[m] == h;
        }
    }
    let mut out: Vec<Hwnd> = Vec::new();
    let mut i: usize = 0;
    while i < live.len()
        invariant
            on_screen.len() == live.len(),
            i <= live.len(),
            forall|h: Hwnd| ws@.contains(h) <==> workspace@.contains(h),
            out@ == temporaries(live@, workspace@, on_screen@, i as nat),
            forall|j: int| 0 <= j < out.len() ==> !workspace@.contains(#[trigger] out[j]),
        decreases live.len() - i,
    {
        let h = live[i].hwnd;
        if !ws.contains(&h) && on_screen[i] {
            out.push(h);
        }
        i = i + 1;
    }
    proof {
        lemma_temporaries(live@, workspace@, on_screen@, live.len() as nat);
        assert forall|h: Hwnd| #[trigger] out@.contains(h) <==> exists|i: int|
            0 <= i < live.len() && on_screen[i] && !workspace@.contains(live@[i].hwnd) && live@[i].hwnd == h by {
            assert(out@.contains(h) <==> on_screen_outside(live@, workspace@, on_screen@, live.len() as int, h));
        }
    }
    out
}

/// The current workspace as a saveable scheme, from the open windows in
/// z-order, each given as its executable name (if known), title and
/// rectangle: `None` when no window is open; otherwise every window with its
/// identity (an unknown executable is saved as empty) and rectangle, in
/// order.
pub fn capture(windows: &Vec<(Option<String>, String, Rect)>) -> (r: Option<Scheme>)
    ensures
        windows.len() == 0 ==> r is None,
        windows.len() > 0 ==> (r matches Some(sc) && sc@.wins == Seq::new(
            windows.len() as nat,
            |i: int|
                (
                    match windows[i].0 {
                        Some(e) => e@,
                        None => Seq::<char>::empty(),
                    },
                    windows[i].1@,
                ),
        ) && sc@.rects == Seq::new(windows.len() as nat, |i: int| windows[i].2)),
{
    if windows.len() == 0 {
        return None;
    }
    let mut wins: Vec<SlotSig> = Vec::new();
    let mut i: usize = 0;
    while i < windows.len()
        invariant
            i <= windows.len(),
            wins.len() == i,
            forall|j: int|
                0 <= j < i ==> identity(#[trigger] wins[j]) == (
                    match windows[j].0 {
                        Some(e) => e@,
                        None => Seq::<char>::empty(),
                    },
                    windows[j].1@,
                ) && wins[j].rect == windows[j].2,
        decreases windows.len() - i,
    {
        let exe = match &windows[i].0 {
            Some(e) => e.clone(),
            None => String::new(),
        };
        let title = windows[i].1.clone();
        wins.push(SlotSig { exe, title, rect: windows[i].2 });
        i = i + 1;
    }
    let sc = Scheme { wins };
    assert(sc@.wins =~= Seq::new(
        windows.len() as nat,
        |i: int|
            (
                match windows[i].0 {
                    Some(e) => e@,
                    None => Seq::<char>::empty(),
                },
                windows[i].1@,
            ),
    ));
    assert(sc@.rects =~= Seq::new(windows.len() as nat, |i: int| windows[i].2));
    Some(sc)
}

/// What the user is told after a request: the message kind, the slot it
/// names, and whether it needs a decision (a centered modal) or is a
/// passing notice.
pub struct Notice {
    pub kind: String,
    pub slot: u8,
    pub modal: bool,
}

/// The notice for the answer to a save request for `slot`: "save-saved",
/// "save-confirm" (the one modal) or "save-nolayout".
pub fn notice_for_save(r: SaveResult, slot: u8) -> (n: Notice)
    ensures
        match r {
            SaveResult::Saved(s) => n.kind@ == "save-saved"@ && n.slot == s && !n.modal,
            SaveResult::Confirm(s) => n.kind@ == "save-confirm"@ && n.slot == s && n.modal,
            SaveResult::NoLayout => n.kind@ == "save-nolayout"@ && n.slot == slot && !n.modal,
        },
{
    match r {
        SaveResult::Saved(s) => Notice { kind: String::from_str("save-saved"), slot: s, modal: false },
        SaveResult::Confirm(s) => Notice { kind: String::from_str("save-confirm"), slot: s, modal: true },
        SaveResult::NoLayout => Notice { kind: String::from_str("save-nolayout"), slot, modal: false },
    }
}

/// The notice for the answer to a restore request: "load-restored",
/// "load-empty" or "load-nomatch", never modal.
pub fn notice_for_restore(r: RestoreResult) -> (n: Notice)
    ensures
        match r {
            RestoreResult::Restored(s) => n.kind@ == "load-restored"@ && n.slot == s,
            RestoreResult::Empty(s) => n.kind@ == "load-empty"@ && n.slot == s,
            RestoreResult::NoMatch(s) => n.kind@ == "load-nomatch"@ && n.slot == s,
        },
        !n.modal,
{
    match r {
        RestoreResult::Restored(s) => Notice { kind: String::from_str("load-restored"), slot: s, modal: false },
        RestoreResult::Empty(s) => Notice { kind: String::from_str("load-empty"), slot: s, modal: false },
        RestoreResult::NoMatch(s) => Notice { kind: String::from_str("load-nomatch"), slot: s, modal: false },
    }
}

/// Saving over an occupied slot asks first and changes nothing; confirming
/// then stores the workspace as it is at confirmation (or, with nothing
/// captured, just drops the question); cancelling keeps the old workspace.
pub proof fn lemma_overwrite_needs_confirmation(v: PresetsView, slot: u8, first: SchemeView, later: Option<SchemeView>)
    requires
        presets_wf(v),
        slot < PRESET_SLOTS,
        v.schemes[slot as int] is Some,
    ensures
        request_save_spec(v, slot, Some(first)).1 == SaveResult::Confirm(slot),
        request_save_spec(v, slot, Some(first)).0.schemes == v.schemes,
        ({
            let asked = request_save_spec(v, slot, Some(first)).0;
            let (done, changed) = confirm_save_spec(asked, slot, later);
            &&& done.pending is None
            &&& match later {
                Some(c) => changed && done.schemes == v.schemes.update(slot as int, Some(c)),
                None => !changed && done.schemes == v.schemes,
            }
        }),
{
}

spec fn comes_from(wins: Seq<(Seq<char>, Seq<char>)>, rects: Seq<Rect>, live: Seq<LiveWindow>, k: int, x: (Hwnd, Rect)) -> bool {
    exists|i: int, m: int|
        0 <= i < live.len() && 0 <= m < k && x == (live[i].hwnd, rects[m]) && #[trigger] live[i].exe@
            == #[trigger] wins[m].0
}

proof fn lemma_assignment_facts(wins: Seq<(Seq<char>, Seq<char>)>, rects: Seq<Rect>, live: Seq<LiveWindow>, k: nat)
    requires
        k <= wins.len(),
    ensures
        assignment(wins, rects, live, k).0.len() == live.len(),
        assignment(wins, rects, live, k).1.len() == 0 ==> forall|i: int|
            0 <= i < live.len() ==> !(#[trigger] assignment(wins, rects, live, k).0[i]),
        forall|t: int|
            0 <= t < assignment(wins, rects, live, k).1.len() ==> comes_from(
                wins,
                rects,
                live,
                k as int,
                #[trigger] assignment(wins, rects, live, k).1[t],
            ),
        k > 0 ==> assignment(wins, rects, live, (k - 1) as nat).1.len() <= assignment(
            wins,
            rects,
            live,
            k,
        ).1.len(),
    decreases k,
{
    if k > 0 {
        let p = (k - 1) as nat;
        lemma_assignment_facts(wins, rects, live, p);
        let used = assignment(wins, rects, live, p).0;
        let picked = assignment(wins, rects, live, p).1;
        lemma_first_free(live, used, wins[p as int], true, live.len());
        lemma_first_free(live, used, wins[p as int], false, live.len());
        match pick(live, used, wins[p as int]) {
            Some(i) => {
                let np = picked.push((live[i].hwnd, rects[p as int]));
                assert(assignment(wins, rects, live, k) == (used.update(i, true), np));
                assert forall|t: int| 0 <= t < np.len() implies comes_from(wins, rects, live, k as int, #[trigger] assignment(wins, rects, live, k).1[t]) by {
                    if t < picked.len() {
                        assert(comes_from(wins, rects, live, p as int, picked[t]));
                        let (i2, m) = choose|i2: int, m: int|
                            0 <= i2 < live.len() && 0 <= m < p && picked[t] == (live[i2].hwnd, rects[m])
                                && #[trigger] live[i2].exe@ == #[trigger] wins[m].0;
                        assert(np[t] == picked[t]);
                    } else {
                        assert(np[t] == (live[i].hwnd, rects[p as int]));
                        assert(live[i].exe@ == wins[p as int].0);
                    }
                }
            },
            None => {
                assert(assignment(wins, rects, live, k) == (used, picked));
                assert forall|t: int| 0 <= t < picked.len() implies comes_from(wins, rects, live, k as int, #[trigger] assignment(wins, rects, live, k).1[t]) by {
                    assert(comes_from(wins, rects, live, p as int, picked[t]));
                    let (i2, m) = choose|i2: int, m: int|
                        0 <= i2 < live.len() && 0 <= m < p && picked[t] == (live[i2].hwnd, rects[m])
                            && #[trigger] live[i2].exe@ == #[trigger] wins[m].0;
                }
            },
        }
    }
}

proof fn lemma_assignment_nonempty(wins: Seq<(Seq<char>, Seq<char>)>, rects: Seq<Rect>, live: Seq<LiveWindow>, k: nat, m: int, i: int)
    requires
        k <= wins.len(),
        0 <= m < k,
        0 <= i < live.len(),
        live[i].exe@ == wins[m].0,
    ensures
        assignment(wins, rects, live, k).1.len() > 0,
    decreases k,
{
    let p = (k - 1) as nat;
    lemma_assignment_facts(wins, rects, live, k);
    if m < p {
        lemma_assignment_nonempty(wins, rects, live, p, m, i);
    } else {
        lemma_assignment_facts(wins, rects, live, p);
        let used = assignment(wins, rects, live, p).0;
        let picked = assignment(wins, rects, live, p).1;
        if picked.len() == 0 {
            assert(!used[i]);
            lemma_first_free(live, used, wins[m], true, live.len());
            lemma_first_free(live, used, wins[m], false, live.len());
            assert(candidate(live[i], wins[m], false));
            assert(first_free(live, used, wins[m], false, live.len()) is Some);
            assert(pick(live, used, wins[m]) is Some);
        }
    }
}

/// A restore answers `NoMatch` only when none of the saved windows is open:
/// as soon as an open window has the executable of some saved window, the
/// restore answers `Restored` and moves at least one window. Each window it
/// moves is an open window sent to the rectangle saved for a window with the
/// same executable.
pub proof fn lemma_restore_moves_what_is_open(v: PresetsView, slot: u8, live: Seq<LiveWindow>)
    requires
        presets_wf(v),
        slot < PRESET_SLOTS,
        v.schemes[slot as int] is Some,
        v.schemes[slot as int]->0.rects.len() == v.schemes[slot as int]->0.wins.len(),
    ensures
        ({
            let sc = v.schemes[slot as int]->0;
            &&& (exists|k: int, i: int|
                0 <= k < sc.wins.len() && 0 <= i < live.len() && #[trigger] live[i].exe@ == #[trigger] sc.wins[k].0)
                ==> restore_spec(v, slot, live).0 == RestoreResult::Restored(slot)
            &&& restore_spec(v, slot, live).0 == RestoreResult::NoMatch(slot) ==> forall|k: int, i: int|
                0 <= k < sc.wins.len() && 0 <= i < live.len() ==> #[trigger] live[i].exe@ != #[trigger] sc.wins[k].0
            &&& restore_spec(v, slot, live).0 == RestoreResult::Restored(slot) ==> (restore_spec(v, slot, live).1 matches Some(t)
                && t.len() > 0 && forall|j: int|
                0 <= j < t.len() ==> exists|i: int, k: int|
                    0 <= i < live.len() && 0 <= k < sc.wins.len() && #[trigger] t[j] == (live[i].hwnd, sc.rects[k])
                        && live[i].exe@ == sc.wins[k].0)
        }),
{
    let sc = v.schemes[slot as int]->0;
    lemma_assignment_facts(sc.wins, sc.rects, live, sc.wins.len());
    if exists|k: int, i: int|
        0 <= k < sc.wins.len() && 0 <= i < live.len() && #[trigger] live[i].exe@ == #[trigger] sc.wins[k].0 {
        let (k, i) = choose|k: int, i: int|
            0 <= k < sc.wins.len() && 0 <= i < live.len() && #[trigger] live[i].exe@ == #[trigger] sc.wins[k].0;
        lemma_assignment_nonempty(sc.wins, sc.rects, live, sc.wins.len(), k, i);
    }
    let t = restore_targets(sc.wins, sc.rects, live);
    if t.len() > 0 {
        assert forall|j: int| 0 <= j < t.len() implies exists|i: int, k: int|
            0 <= i < live.len() && 0 <= k < sc.wins.len() && #[trigger] t[j] == (live[i].hwnd, sc.rects[k])
                && live[i].exe@ == sc.wins[k].0 by {
            assert(comes_from(sc.wins, sc.rects, live, sc.wins.len() as int, t[j]));
            let (i, m) = choose|i: int, m: int|
                0 <= i < live.len() && 0 <= m < sc.wins.len() && t[j] == (live[i].hwnd, sc.rects[m])
                    && #[trigger] live[i].exe@ == #[trigger] sc.wins[m].0;
            assert(t[j] == (live[i].hwnd, sc.rects[m]));
        }
    }
}

proof fn lemma_assignment_prefix(wins: Seq<(Seq<char>, Seq<char>)>, rects: Seq<Rect>, live: Seq<LiveWindow>, p: nat, k: nat)
    requires
        p <= k <= wins.len(),
    ensures
        assignment(wins, rects, live, p).1.len() <= assignment(wins, rects, live, k).1.len(),
        forall|t: int|
            0 <= t < assignment(wins, rects, live, p).1.len() ==> #[trigger] assignment(wins, rects, live, k).1[t]
                == assignment(wins, rects, live, p).1[t],
    decreases k - p,
{
    if p < k {
        let q = (k - 1) as nat;
        lemma_assignment_prefix(wins, rects, live, p, q);
        lemma_assignment_facts(wins, rects, live, k);
        let used = assignment(wins, rects, live, q).0;
        let picked = assignment(wins, rects, live, q).1;
        match pick(live, used, wins[q as int]) {
            Some(i) => {
                assert(assignment(wins, rects, live, k).1 == picked.push((live[i].hwnd, rects[q as int])));
            },
            None => {},
        }
    }
}

proof fn lemma_used_in_targets(wins: Seq<(Seq<char>, Seq<char>)>, rects: Seq<Rect>, live: Seq<LiveWindow>, k: nat)
    requires
        k <= wins.len(),
    ensures
        forall|i: int|
            0 <= i < live.len() && #[trigger] assignment(wins, rects, live, k).0[i] ==> exists|t: int|
                0 <= t < assignment(wins, rects, live, k).1.len() && assignment(wins, rects, live, k).1[t].0
                    == live[i].hwnd,
    decreases k,
{
    lemma_assignment_facts(wins, rects, live, k);
    if k > 0 {
        let p = (k - 1) as nat;
        lemma_used_in_targets(wins, rects, live, p);
        lemma_assignment_facts(wins, rects, live, p);
        let used = assignment(wins, rects, live, p).0;
        let picked = assignment(wins, rects, live, p).1;
        lemma_first_free(live, used, wins[p as int], true, live.len());
        lemma_first_free(live, used, wins[p as int], false, live.len());
        match pick(live, used, wins[p as int]) {
            Some(j) => {
                let nu = used.update(j, true);
                let np = picked.push((live[j].hwnd, rects[p as int]));
                assert(assignment(wins, rects, live, k) == (nu, np));
                assert forall|i: int| 0 <= i < live.len() && #[trigger] assignment(wins, rects, live, k).0[i]
                    implies exists|t: int| 0 <= t < assignment(wins, rects, live, k).1.len()
                        && assignment(wins, rects, live, k).1[t].0 == live[i].hwnd by {
                    if i == j {
                        assert(np[picked.len() as int].0 == live[i].hwnd);
                    } else {
                        assert(used[i]);
                        let t = choose|t: int| 0 <= t < picked.len() && picked[t].0 == live[i].hwnd;
                        assert(np[t] == picked[t]);
                    }
                }
            },
            None => {},
        }
    }
}

/// Whether the placements `t` move an open window (one of `live`) whose
/// executable is `exe`.
pub open spec fn moves_exe(t: Seq<(Hwnd, Rect)>, live: Seq<LiveWindow>, exe: Seq<char>) -> bool {
    exists|j: int, i: int| 0 <= j < t.len() && 0 <= i < live.len() && t[j].0 == live[i].hwnd && live[i].exe@ == exe
}

/// Every executable of a saved workspace that is open takes part in its
/// restore: when an open window has the executable of a saved window, the
/// restore moves that window, or another open window of the same executable
/// (one that an earlier saved window of that executable took, or one whose
/// title matches better).
pub proof fn lemma_open_executables_moved(v: PresetsView, slot: u8, live: Seq<LiveWindow>)
    requires
        presets_wf(v),
        slot < PRESET_SLOTS,
        v.schemes[slot as int] is Some,
        v.schemes[slot as int]->0.rects.len() == v.schemes[slot as int]->0.wins.len(),
    ensures
        ({
            let sc = v.schemes[slot as int]->0;
            forall|m: int, i: int|
                0 <= m < sc.wins.len() && 0 <= i < live.len() && #[trigger] live[i].exe@ == #[trigger] sc.wins[m].0
                    ==> (restore_spec(v, slot, live).1 matches Some(t) && moves_exe(t, live, sc.wins[m].0))
        }),
{
    let sc = v.schemes[slot as int]->0;
    let n = sc.wins.len();
    assert forall|m: int, i: int|
        0 <= m < sc.wins.len() && 0 <= i < live.len() && #[trigger] live[i].exe@ == #[trigger] sc.wins[m].0
            implies (restore_spec(v, slot, live).1 matches Some(t) && moves_exe(t, live, sc.wins[m].0)) by {
        let q = m as nat;
        let k = (m + 1) as nat;
        lemma_assignment_facts(sc.wins, sc.rects, live, q);
        lemma_assignment_facts(sc.wins, sc.rects, live, k);
        lemma_assignment_prefix(sc.wins, sc.rects, live, k, n);
        lemma_assignment_prefix(sc.wins, sc.rects, live, q, n);
        let used = assignment(sc.wins, sc.rects, live, q).0;
        let picked = assignment(sc.wins, sc.rects, live, q).1;
        let all = restore_targets(sc.wins, sc.rects, live);
        lemma_first_free(live, used, sc.wins[m], true, live.len());
        lemma_first_free(live, used, sc.wins[m], false, live.len());
        match pick(live, used, sc.wins[m]) {
            Some(j2) => {
                let np = picked.push((live[j2].hwnd, sc.rects[m]));
                assert(assignment(sc.wins, sc.rects, live, k).1 == np);
                let j = picked.len() as int;
                assert(all[j] == np[j]);
                assert(all[j].0 == live[j2].hwnd && live[j2].exe@ == sc.wins[m].0);
                assert(0 <= j < all.len() && 0 <= j2 < live.len());
                assert(restore_spec(v, slot, live).1 == Some(all));
                assert(moves_exe(all, live, sc.wins[m].0));
            },
            None => {
                assert(candidate(live[i], sc.wins[m], false));
                assert(used[i]);
                lemma_used_in_targets(sc.wins, sc.rects, live, q);
                let j = choose|t: int| 0 <= t < picked.len() && picked[t].0 == live[i].hwnd;
                assert(all[j] == picked[j]);
                assert(all[j].0 == live[i].hwnd);
                assert(0 <= j < all.len());
                assert(restore_spec(v, slot, live).1 == Some(all));
                assert(moves_exe(all, live, sc.wins[m].0));
            },
        }
    }
}

/// A save request with nothing captured answers `NoLayout` and leaves every
/// slot and the pending confirmation as they were. With something captured,
/// no other slot changes: an empty slot takes the capture (`Saved`), an
/// occupied one keeps its workspace and the slot waits for confirmation
/// (`Confirm`).
pub proof fn lemma_request_save_outcomes(v: PresetsView, slot: u8, captured: Option<SchemeView>)
    requires
        presets_wf(v),
        captured is Some ==> slot < PRESET_SLOTS,
    ensures
        captured is None ==> request_save_spec(v, slot, captured) == (v, SaveResult::NoLayout),
        captured matches Some(c) ==> ({
            let (w, r) = request_save_spec(v, slot, captured);
            &&& w.schemes.len() == v.schemes.len()
            &&& forall|j: int| 0 <= j < v.schemes.len() && j != slot ==> #[trigger] w.schemes[j] == v.schemes[j]
            &&& v.schemes[slot as int] is None ==> r == SaveResult::Saved(slot) && w.schemes[slot as int]
                == Some(c) && w.pending == v.pending
            &&& v.schemes[slot as int] is Some ==> r == SaveResult::Confirm(slot) && w.schemes == v.schemes
                && w.pending == Some(slot)
        }),
{
}

/// A save into an empty slot is stored at once, and restoring that slot
/// while the saved windows are open puts each back where it was: when each
/// saved window belongs unambiguously to one open window (at `found[k]` for
/// saved window `k`; see `sole_match`, which also covers a changed title)
/// and no two saved windows belong to the same open window, the restore
/// moves exactly those windows, each to the rectangle saved for it.
pub proof fn lemma_save_then_restore(v: PresetsView, slot: u8, c: SchemeView, live: Seq<LiveWindow>, found: Seq<int>)
    requires
        presets_wf(v),
        slot < PRESET_SLOTS,
        v.schemes[slot as int] is None,
        c.wins.len() > 0,
        c.rects.len() == c.wins.len(),
        found.len() == c.wins.len(),
        found.no_duplicates(),
        forall|k: int| 0 <= k < c.wins.len() ==> sole_match(live, c.wins[k], #[trigger] found[k]),
    ensures
        request_save_spec(v, slot, Some(c)).1 == SaveResult::Saved(slot),
        restore_spec(request_save_spec(v, slot, Some(c)).0, slot, live) == (
            RestoreResult::Restored(slot),
            Some(Seq::new(c.wins.len(), |k: int| (live[found[k]].hwnd, c.rects[k]))),
        ),
{
    lemma_restore_finds_saved(c.wins, c.rects, live, found);
    let saved = request_save_spec(v, slot, Some(c)).0;
    assert(saved.schemes[slot as int] == Some(c));
}

} // verus!
