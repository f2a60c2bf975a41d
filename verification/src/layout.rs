use vstd::prelude::*;
use vstd::arithmetic::div_mod::{lemma_add_mod_noop, lemma_mod_twice, lemma_small_mod};

verus! {

/// A window handle, as the operating system hands it out.
pub type Hwnd = isize;

/// A screen rectangle in pixels; `right` and `bottom` are exclusive.
#[derive(Clone, Copy, Debug, PartialEq, Eq, Structural)]
pub struct Rect {
    pub left: i32,
    pub top: i32,
    pub right: i32,
    pub bottom: i32,
}

/// Half of `n`, rounded to the nearest integer with ties away from zero
/// (what `f64::round` does to `n as f64 * 0.5`).
pub open spec fn round_half(n: int) -> int {
    if n >= 0 {
        (n + 1) / 2
    } else {
        -((-n + 1) / 2)
    }
}

/// `k / 2` of the length `w`, rounded as above.
pub open spec fn halves_of(w: int, k: int) -> int {
    round_half(k * w)
}

/// The fractional parts of each layout mode, in halves of the work area:
/// `(x, y, x + w, y + h)`, in slot order.
pub open spec fn layout_parts(mode: u8) -> Seq<(int, int, int, int)> {
    if mode == 1 {
        seq![(0, 0, 2, 2)]
    } else if mode == 2 {
        seq![(0, 0, 1, 2), (1, 0, 2, 2)]
    } else if mode == 3 {
        seq![(0, 0, 1, 2), (1, 0, 2, 1), (1, 1, 2, 2)]
    } else if mode == 4 {
        seq![(0, 0, 1, 1), (1, 0, 2, 1), (0, 1, 1, 2), (1, 1, 2, 2)]
    } else {
        seq![]
    }
}

pub open spec fn area_width(area: Rect) -> int {
    area.right - area.left
}

pub open spec fn area_height(area: Rect) -> int {
    area.bottom - area.top
}

/// The rectangle of `area` that a fractional part (in halves) covers.
pub open spec fn part_rect(area: Rect, part: (int, int, int, int)) -> Rect {
    Rect {
        left: (area.left + halves_of(area_width(area), part.0)) as i32,
        top: (area.top + halves_of(area_height(area), part.1)) as i32,
        right: (area.left + halves_of(area_width(area), part.2)) as i32,
        bottom: (area.top + halves_of(area_height(area), part.3)) as i32,
    }
}

/// The slot rectangles of layout `mode` over `area`, in slot order.
pub open spec fn layout_rects(mode: u8, area: Rect) -> Seq<Rect> {
    layout_parts(mode).map_values(|p: (int, int, int, int)| part_rect(area, p))
}

/// The width and height of `area` are representable as `i32`.
pub open spec fn area_fits(area: Rect) -> bool {
    &&& i32::MIN <= area_width(area) <= i32::MAX
    &&& i32::MIN <= area_height(area) <= i32::MAX
}

proof fn lemma_halves_bounds(w: int, k: int)
    requires
        0 <= k <= 2,
    ensures
        k == 0 ==> halves_of(w, k) == 0,
        k == 1 ==> halves_of(w, k) == round_half(w),
        k == 2 ==> halves_of(w, k) == w,
        w >= 0 ==> 0 <= halves_of(w, k) <= w,
        w < 0 ==> w <= halves_of(w, k) <= 0,
{
    if k == 0 {
        assert(k * w == 0);
    } else if k == 1 {
        assert(k * w == w);
    } else {
        assert(k * w == 2 * w);
    }
}


/// Whether the point `(x, y)` lies in `r` (right and bottom edges excluded).
pub open spec fn contains_point(r: Rect, x: int, y: int) -> bool {
    &&& r.left <= x < r.right
    &&& r.top <= y < r.bottom
}

/// Whether `inner` lies within `outer`.
pub open spec fn within(inner: Rect, outer: Rect) -> bool {
    &&& outer.left <= inner.left <= inner.right <= outer.right
    &&& outer.top <= inner.top <= inner.bottom <= outer.bottom
}

/// The slot of layout `mode` that holds the point `(x, y)` of `area`.
pub open spec fn slot_at(mode: u8, area: Rect, x: int, y: int) -> int {
    let right_half = x >= area.left + round_half(area_width(area));
    let lower_half = y >= area.top + round_half(area_height(area));
    if mode == 2 {
        if right_half { 1 } else { 0 }
    } else if mode == 3 {
        if !right_half { 0 } else if !lower_half { 1 } else { 2 }
    } else if mode == 4 {
        (if right_half { 1int } else { 0int }) + (if lower_half { 2int } else { 0int })
    } else {
        0
    }
}

proof fn lemma_tiles(mode: u8, area: Rect, x: int, y: int)
    requires
        1 <= mode <= 4,
        area.left <= area.right,
        area.top <= area.bottom,
        contains_point(area, x, y),
    ensures
        layout_rects(mode, area).len() == mode,
        forall|k: int| 0 <= k < mode ==> within(#[trigger] layout_rects(mode, area)[k], area),
        0 <= slot_at(mode, area, x, y) < mode,
        forall|j: int|
            0 <= j < mode ==> (contains_point(#[trigger] layout_rects(mode, area)[j], x, y) <==> j
                == slot_at(mode, area, x, y)),
{
    let w = area_width(area);
    let h = area_height(area);
    lemma_halves_bounds(w, 0);
    lemma_halves_bounds(w, 1);
    lemma_halves_bounds(w, 2);
    lemma_halves_bounds(h, 0);
    lemma_halves_bounds(h, 1);
    lemma_halves_bounds(h, 2);
    let rs = layout_rects(mode, area);
    let hw = (area.left + round_half(w)) as i32;
    let hh = (area.top + round_half(h)) as i32;
    if mode == 1 {
        assert(rs[0] == area);
    } else if mode == 2 {
        assert(rs[0] == Rect { left: area.left, top: area.top, right: hw, bottom: area.bottom });
        assert(rs[1] == Rect { left: hw, top: area.top, right: area.right, bottom: area.bottom });
    } else if mode == 3 {
        assert(rs[0] == Rect { left: area.left, top: area.top, right: hw, bottom: area.bottom });
        assert(rs[1] == Rect { left: hw, top: area.top, right: area.right, bottom: hh });
        assert(rs[2] == Rect { left: hw, top: hh, right: area.right, bottom: area.bottom });
    } else {
        assert(rs[0] == Rect { left: area.left, top: area.top, right: hw, bottom: hh });
        assert(rs[1] == Rect { left: hw, top: area.top, right: area.right, bottom: hh });
        assert(rs[2] == Rect { left: area.left, top: hh, right: hw, bottom: area.bottom });
        assert(rs[3] == Rect { left: hw, top: hh, right: area.right, bottom: area.bottom });
    }
}

/// Layout `mode` (1 to 4) has `mode` slots, every slot lies within the work
/// area, and the slots tile the area: each point of the area lies in exactly
/// one slot.
pub proof fn lemma_layout_tiles_area(mode: u8, area: Rect, x: int, y: int)
    requires
        1 <= mode <= 4,
        area.left <= area.right,
        area.top <= area.bottom,
        contains_point(area, x, y),
    ensures
        layout_rects(mode, area).len() == mode,
        forall|k: int| 0 <= k < mode ==> within(#[trigger] layout_rects(mode, area)[k], area),
        exists|k: int|
            0 <= k < mode && contains_point(#[trigger] layout_rects(mode, area)[k], x, y) && (
            forall|j: int|
                0 <= j < mode && j != k ==> !contains_point(
                    #[trigger] layout_rects(mode, area)[j],
                    x,
                    y,
                )),
{
    lemma_tiles(mode, area, x, y);
    let k = slot_at(mode, area, x, y);
    assert(contains_point(layout_rects(mode, area)[k], x, y));
}

/// The slots of each layout in slot order, over a work area of width `w` and
/// height `h` split at `mx = left + (w + 1) / 2` and `my = top + (h + 1) / 2`:
/// 1 is the whole area; 2 the left then the right half; 3 the left half,
/// then the top and bottom of the right half; 4 the quarters top-left,
/// top-right, bottom-left, bottom-right.
pub proof fn lemma_slot_positions(mode: u8, area: Rect)
    requires
        1 <= mode <= 4,
        area.left <= area.right,
        area.top <= area.bottom,
    ensures
        ({
            let mx = (area.left + (area.right - area.left + 1) / 2) as i32;
            let my = (area.top + (area.bottom - area.top + 1) / 2) as i32;
            let (l, t, r, b) = (area.left, area.top, area.right, area.bottom);
            &&& mode == 1 ==> layout_rects(mode, area) == seq![area]
            &&& mode == 2 ==> layout_rects(mode, area) == seq![
                (Rect { left: l, top: t, right: mx, bottom: b }),
                (Rect { left: mx, top: t, right: r, bottom: b }),
            ]
            &&& mode == 3 ==> layout_rects(mode, area) == seq![
                (Rect { left: l, top: t, right: mx, bottom: b }),
                (Rect { left: mx, top: t, right: r, bottom: my }),
                (Rect { left: mx, top: my, right: r, bottom: b }),
            ]
            &&& mode == 4 ==> layout_rects(mode, area) == seq![
                (Rect { left: l, top: t, right: mx, bottom: my }),
                (Rect { left: mx, top: t, right: r, bottom: my }),
                (Rect { left: l, top: my, right: mx, bottom: b }),
                (Rect { left: mx, top: my, right: r, bottom: b }),
            ]
        }),
{
    let w = area_width(area);
    let h = area_height(area);
    lemma_halves_bounds(w, 0);
    lemma_halves_bounds(w, 1);
    lemma_halves_bounds(w, 2);
    lemma_halves_bounds(h, 0);
    lemma_halves_bounds(h, 1);
    lemma_halves_bounds(h, 2);
    let mx = (area.left + (area.right - area.left + 1) / 2) as i32;
    let my = (area.top + (area.bottom - area.top + 1) / 2) as i32;
    let (l, t, r, b) = (area.left, area.top, area.right, area.bottom);
    let rs = layout_rects(mode, area);
    if mode == 1 {
        assert(rs =~= seq![area]);
    } else if mode == 2 {
        assert(rs =~= seq![
            (Rect { left: l, top: t, right: mx, bottom: b }),
            (Rect { left: mx, top: t, right: r, bottom: b }),
        ]);
    } else if mode == 3 {
        assert(rs =~= seq![
            (Rect { left: l, top: t, right: mx, bottom: b }),
            (Rect { left: mx, top: t, right: r, bottom: my }),
            (Rect { left: mx, top: my, right: r, bottom: b }),
        ]);
    } else {
        assert(rs =~= seq![
            (Rect { left: l, top: t, right: mx, bottom: my }),
            (Rect { left: mx, top: t, right: r, bottom: my }),
            (Rect { left: l, top: my, right: mx, bottom: b }),
            (Rect { left: mx, top: my, right: r, bottom: b }),
        ]);
    }
}

/// `halves_of(w, k)` computed on machine integers.
fn halves(w: i32, k: u8) -> (r: i32)
    requires
        k <= 2,
    ensures
        r == halves_of(w as int, k as int),
{
    proof {
        lemma_halves_bounds(w as int, k as int);
    }
    if k == 0 {
        0
    } else if k == 2 {
        w
    } else {
        let wl: i64 = w as i64;
        if wl >= 0 {
            ((wl + 1) / 2) as i32
        } else {
            (-((-wl + 1) / 2)) as i32
        }
    }
}

/// Rectangles of `area` for the given fractional parts (in halves),
/// in the order of `parts`.
fn rects_for(area: &Rect, parts: &Vec<(u8, u8, u8, u8)>) -> (r: Vec<Rect>)
    requires
        parts.len() > 0 ==> area_fits(*area),
        forall|i: int|
            0 <= i < parts.len() ==> {
                &&& parts[i].0 <= 2
                &&& parts[i].1 <= 2
                &&& parts[i].2 <= 2
                &&& parts[i].3 <= 2
            },
    ensures
        r.len() == parts.len(),
        forall|i: int|
            0 <= i < parts.len() ==> r[i] == part_rect(
                *area,
                (parts[i].0 as int, parts[i].1 as int, parts[i].2 as int, parts[i].3 as int),
            ),
{
    let w: i32 = (area.right as i64 - area.left as i64) as i32;
    let h: i32 = (area.bottom as i64 - area.top as i64) as i32;
    let mut out: Vec<Rect> = Vec::new();
    let mut i: usize = 0;
    while i < parts.len()
        invariant
            i <= parts.len(),
            out.len() == i,
            parts.len() > 0 ==> area_fits(*area),
            parts.len() > 0 ==> w == area_width(*area),
            parts.len() > 0 ==> h == area_height(*area),
            forall|j: int|
                0 <= j < parts.len() ==> {
                    &&& parts[j].0 <= 2
                    &&& parts[j].1 <= 2
                    &&& parts[j].2 <= 2
                    &&& parts[j].3 <= 2
                },
            forall|j: int|
                0 <= j < i ==> out[j] == part_rect(
                    *area,
                    (parts[j].0 as int, parts[j].1 as int, parts[j].2 as int, parts[j].3 as int),
                ),
        decreases parts.len() - i,
    {
        let (fx, fy, fx2, fy2) = parts[i];
        proof {
            lemma_halves_bounds(w as int, fx as int);
            lemma_halves_bounds(w as int, fx2 as int);
            lemma_halves_bounds(h as int, fy as int);
            lemma_halves_bounds(h as int, fy2 as int);
        }
        let r = Rect {
            left: area.left + halves(w, fx),
            top: area.top + halves(h, fy),
            right: area.left + halves(w, fx2),
            bottom: area.top + halves(h, fy2),
        };
        out.push(r);
        i = i + 1;
    }
    out
}

/// Slot rectangles of the work area for each layout mode, in slot order:
/// 1 = one window over the whole area, 2 = left and right halves,
/// 3 = left half plus right-top and right-bottom quarters, 4 = a 2 x 2 grid.
/// Any other mode has no slots. The width and height of the area are only
/// computed for modes 1 to 4, so only there must they fit an `i32`.
pub fn geometry_for(mode: u8, area: &Rect) -> (r: Vec<Rect>)
    requires
        1 <= mode <= 4 ==> area_fits(*area),
    ensures
        r@ == layout_rects(mode, *area),
{
    let parts: Vec<(u8, u8, u8, u8)> = if mode == 1 {
        vec![(0, 0, 2, 2)]
    } else if mode == 2 {
        vec![(0, 0, 1, 2), (1, 0, 2, 2)]
    } else if mode == 3 {
        vec![(0, 0, 1, 2), (1, 0, 2, 1), (1, 1, 2, 2)]
    } else if mode == 4 {
        vec![(0, 0, 1, 1), (1, 0, 2, 1), (0, 1, 1, 2), (1, 1, 2, 2)]
    } else {
        Vec::new()
    };
    let r = rects_for(area, &parts);
    assert(r@ =~= layout_rects(mode, *area));
    r
}

/// The arrangement that was applied last: the layout mode (1 to 4) and,
/// for each slot, the window that currently sits in it.
pub struct LayoutState {
    pub mode: u8,
    pub slots: Vec<Hwnd>,
}

/// Neighbour slot of `idx` in direction `dir` (0 = left, 1 = right,
/// 2 = up, 3 = down) in layout `mode`, if there is a viewport that way.
pub open spec fn neighbor(mode: u8, idx: usize, dir: u8) -> Option<usize> {
    if mode == 2 {
        // 0 = left, 1 = right
        if idx == 0 && dir == 1 {
            Some(1)
        } else if idx == 1 && dir == 0 {
            Some(0)
        } else {
            None
        }
    } else if mode == 3 {
        // 0 = left (full height), 1 = right top, 2 = right bottom
        if idx == 0 && dir == 1 {
            Some(1)
        } else if idx == 1 && dir == 0 {
            Some(0)
        } else if idx == 1 && dir == 3 {
            Some(2)
        } else if idx == 2 && dir == 0 {
            Some(0)
        } else if idx == 2 && dir == 2 {
            Some(1)
        } else {
            None
        }
    } else if mode == 4 {
        // 0 = top left, 1 = top right, 2 = bottom left, 3 = bottom right
        if idx == 0 && dir == 1 {
            Some(1)
        } else if idx == 0 && dir == 3 {
            Some(2)
        } else if idx == 1 && dir == 0 {
            Some(0)
        } else if idx == 1 && dir == 3 {
            Some(3)
        } else if idx == 2 && dir == 1 {
            Some(3)
        } else if idx == 2 && dir == 2 {
            Some(0)
        } else if idx == 3 && dir == 0 {
            Some(2)
        } else if idx == 3 && dir == 2 {
            Some(1)
        } else {
            None
        }
    } else {
        None
    }
}

/// Neighbour slot index for `idx` in `dir`, or `None` if the layout has no
/// viewport in that direction.
pub fn neighbor_slot(mode: u8, idx: usize, dir: u8) -> (r: Option<usize>)
    ensures
        r == neighbor(mode, idx, dir),
{
    if mode == 2 {
        if idx == 0 && dir == 1 {
            Some(1)
        } else if idx == 1 && dir == 0 {
            Some(0)
        } else {
            None
        }
    } else if mode == 3 {
        if idx == 0 && dir == 1 {
            Some(1)
        } else if idx == 1 && dir == 0 {
            Some(0)
        } else if idx == 1 && dir == 3 {
            Some(2)
        } else if idx == 2 && dir == 0 {
            Some(0)
        } else if idx == 2 && dir == 2 {
            Some(1)
        } else {
            None
        }
    } else if mode == 4 {
        if idx == 0 && dir == 1 {
            Some(1)
        } else if idx == 0 && dir == 3 {
            Some(2)
        } else if idx == 1 && dir == 0 {
            Some(0)
        } else if idx == 1 && dir == 3 {
            Some(3)
        } else if idx == 2 && dir == 1 {
            Some(3)
        } else if idx == 2 && dir == 2 {
            Some(0)
        } else if idx == 3 && dir == 0 {
            Some(2)
        } else if idx == 3 && dir == 2 {
            Some(1)
        } else {
            None
        }
    } else {
        None
    }
}

/// Whether `b` lies against `a` on side `dir` of `a` (0 = left, 1 = right,
/// 2 = up, 3 = down): they share that edge, and overlap along it.
pub open spec fn touches_on(a: Rect, b: Rect, dir: u8) -> bool {
    if dir == 0 {
        b.right == a.left && b.top < a.bottom && a.top < b.bottom
    } else if dir == 1 {
        b.left == a.right && b.top < a.bottom && a.top < b.bottom
    } else if dir == 2 {
        b.bottom == a.top && b.left < a.right && a.left < b.right
    } else {
        b.top == a.bottom && b.left < a.right && a.left < b.right
    }
}

proof fn lemma_round_half_inner(w: int)
    requires
        w >= 2,
    ensures
        1 <= round_half(w) <= w - 1,
{
}

/// The neighbour of a slot in a direction is a slot of the same layout whose
/// rectangle lies against it on that side, for any work area at least two
/// pixels wide and high.
pub proof fn lemma_neighbor_touches(mode: u8, area: Rect, idx: usize, dir: u8)
    requires
        area_width(area) >= 2,
        area_height(area) >= 2,
        dir <= 3,
        neighbor(mode, idx, dir) is Some,
    ensures
        idx < layout_rects(mode, area).len(),
        neighbor(mode, idx, dir)->0 < layout_rects(mode, area).len(),
        touches_on(
            layout_rects(mode, area)[idx as int],
            layout_rects(mode, area)[neighbor(mode, idx, dir)->0 as int],
            dir,
        ),
{
    let w = area_width(area);
    let h = area_height(area);
    lemma_halves_bounds(w, 0);
    lemma_halves_bounds(w, 1);
    lemma_halves_bounds(w, 2);
    lemma_halves_bounds(h, 0);
    lemma_halves_bounds(h, 1);
    lemma_halves_bounds(h, 2);
    lemma_round_half_inner(w);
    lemma_round_half_inner(h);
    let rs = layout_rects(mode, area);
    let hw = (area.left + round_half(w)) as i32;
    let hh = (area.top + round_half(h)) as i32;
    if mode == 2 {
        assert(rs[0] == Rect { left: area.left, top: area.top, right: hw, bottom: area.bottom });
        assert(rs[1] == Rect { left: hw, top: area.top, right: area.right, bottom: area.bottom });
    } else if mode == 3 {
        assert(rs[0] == Rect { left: area.left, top: area.top, right: hw, bottom: area.bottom });
        assert(rs[1] == Rect { left: hw, top: area.top, right: area.right, bottom: hh });
        assert(rs[2] == Rect { left: hw, top: hh, right: area.right, bottom: area.bottom });
    } else {
        assert(rs[0] == Rect { left: area.left, top: area.top, right: hw, bottom: hh });
        assert(rs[1] == Rect { left: hw, top: area.top, right: area.right, bottom: hh });
        assert(rs[2] == Rect { left: area.left, top: hh, right: hw, bottom: area.bottom });
        assert(rs[3] == Rect { left: hw, top: hh, right: area.right, bottom: area.bottom });
    }
}

proof fn lemma_touching_slot_is_neighbor(mode: u8, area: Rect, idx: usize, dir: u8, k: int)
    requires
        area_width(area) >= 2,
        area_height(area) >= 2,
        dir <= 3,
        idx < layout_rects(mode, area).len(),
        0 <= k < layout_rects(mode, area).len(),
        k != idx,
        touches_on(layout_rects(mode, area)[idx as int], layout_rects(mode, area)[k], dir),
    ensures
        neighbor(mode, idx, dir) is Some,
        neighbor(mode, idx, dir)->0 == k || (mode == 3 && idx == 0 && dir == 1),
{
    let w = area_width(area);
    let h = area_height(area);
    lemma_halves_bounds(w, 0);
    lemma_halves_bounds(w, 1);
    lemma_halves_bounds(w, 2);
    lemma_halves_bounds(h, 0);
    lemma_halves_bounds(h, 1);
    lemma_halves_bounds(h, 2);
    lemma_round_half_inner(w);
    lemma_round_half_inner(h);
    let rs = layout_rects(mode, area);
    let hw = (area.left + round_half(w)) as i32;
    let hh = (area.top + round_half(h)) as i32;
    if mode == 2 {
        assert(rs[0] == Rect { left: area.left, top: area.top, right: hw, bottom: area.bottom });
        assert(rs[1] == Rect { left: hw, top: area.top, right: area.right, bottom: area.bottom });
    } else if mode == 3 {
        assert(rs[0] == Rect { left: area.left, top: area.top, right: hw, bottom: area.bottom });
        assert(rs[1] == Rect { left: hw, top: area.top, right: area.right, bottom: hh });
        assert(rs[2] == Rect { left: hw, top: hh, right: area.right, bottom: area.bottom });
    } else if mode == 4 {
        assert(rs[0] == Rect { left: area.left, top: area.top, right: hw, bottom: hh });
        assert(rs[1] == Rect { left: hw, top: area.top, right: area.right, bottom: hh });
        assert(rs[2] == Rect { left: area.left, top: hh, right: hw, bottom: area.bottom });
        assert(rs[3] == Rect { left: hw, top: hh, right: area.right, bottom: area.bottom });
    } else {
        assert(rs.len() <= 1);
    }
}

/// A slot has a neighbour in a direction exactly when some other slot lies
/// against it on that side, for any work area at least two pixels wide and
/// high; the neighbour is then the slot lying there, and the only one except
/// from the full-height left slot of the three-window layout going right,
/// where both right-hand slots lie against it and the top one is chosen.
pub proof fn lemma_neighbor_exactly_when_touching(mode: u8, area: Rect, idx: usize, dir: u8)
    requires
        area_width(area) >= 2,
        area_height(area) >= 2,
        dir <= 3,
        idx < layout_rects(mode, area).len(),
    ensures
        neighbor(mode, idx, dir) is Some <==> exists|k: int|
            0 <= k < layout_rects(mode, area).len() && k != idx && touches_on(
                layout_rects(mode, area)[idx as int],
                #[trigger] layout_rects(mode, area)[k],
                dir,
            ),
        forall|k: int|
            0 <= k < layout_rects(mode, area).len() && k != idx && touches_on(
                layout_rects(mode, area)[idx as int],
                #[trigger] layout_rects(mode, area)[k],
                dir,
            ) ==> neighbor(mode, idx, dir) is Some && (neighbor(mode, idx, dir)->0 == k || (mode
                == 3 && idx == 0 && dir == 1)),
{
    let rs = layout_rects(mode, area);
    assert forall|k: int|
        0 <= k < rs.len() && k != idx && touches_on(rs[idx as int], #[trigger] rs[k], dir) implies neighbor(
        mode,
        idx,
        dir,
    ) is Some && (neighbor(mode, idx, dir)->0 == k || (mode == 3 && idx == 0 && dir == 1)) by {
        lemma_touching_slot_is_neighbor(mode, area, idx, dir, k);
    }
    if neighbor(mode, idx, dir) is Some {
        lemma_neighbor_touches(mode, area, idx, dir);
        let j = neighbor(mode, idx, dir)->0 as int;
        assert(j != idx) by {
            let a = rs[idx as int];
            if j == idx {
                assert(a.left < a.right && a.top < a.bottom) by {
                    lemma_tiles_sizes(mode, area, idx as int);
                }
            }
        }
        assert(touches_on(rs[idx as int], rs[j], dir));
    }
}

proof fn lemma_tiles_sizes(mode: u8, area: Rect, k: int)
    requires
        area_width(area) >= 2,
        area_height(area) >= 2,
        0 <= k < layout_rects(mode, area).len(),
    ensures
        layout_rects(mode, area)[k].left < layout_rects(mode, area)[k].right,
        layout_rects(mode, area)[k].top < layout_rects(mode, area)[k].bottom,
{
    let w = area_width(area);
    let h = area_height(area);
    lemma_halves_bounds(w, 0);
    lemma_halves_bounds(w, 1);
    lemma_halves_bounds(w, 2);
    lemma_halves_bounds(h, 0);
    lemma_halves_bounds(h, 1);
    lemma_halves_bounds(h, 2);
    lemma_round_half_inner(w);
    lemma_round_half_inner(h);
}

/// The direction opposite to `dir`.
pub open spec fn opposite(dir: u8) -> u8 {
    if dir == 0 {
        1
    } else if dir == 1 {
        0
    } else if dir == 2 {
        3
    } else {
        2
    }
}

/// A neighbour is another slot of the same layout, and moving back the other
/// way returns to where one came from, except from the right-bottom slot of
/// the three-window layout going left (the full-height left slot goes right
/// to the right-top slot).
pub proof fn lemma_neighbor_symmetric(mode: u8, idx: usize, dir: u8)
    requires
        dir <= 3,
        neighbor(mode, idx, dir) is Some,
        !(mode == 3 && idx == 2 && dir == 0),
    ensures
        2 <= mode <= 4,
        idx < mode,
        neighbor(mode, idx, dir)->0 < mode,
        neighbor(mode, idx, dir)->0 != idx,
        neighbor(mode, neighbor(mode, idx, dir)->0, opposite(dir)) == Some(idx),
{
}

/// Every slot moved one place forward: slot `i` receives the window of slot
/// `i - 1`, and the window of the last slot wraps around to slot 0.
pub open spec fn rotated(s: Seq<Hwnd>) -> Seq<Hwnd> {
    Seq::new(s.len(), |i: int| s[(i + s.len() - 1) % (s.len() as int)])
}

/// `rotated` applied `k` times.
pub open spec fn rotated_times(s: Seq<Hwnd>, k: nat) -> Seq<Hwnd>
    decreases k,
{
    if k == 0 {
        s
    } else {
        rotated(rotated_times(s, (k - 1) as nat))
    }
}

proof fn lemma_mod_shift(x: int, y: int, m: int)
    requires
        0 < m,
    ensures
        ((x % m) - y) % m == (x - y) % m,
{
    lemma_add_mod_noop(x % m, -y, m);
    lemma_mod_twice(x, m);
    lemma_add_mod_noop(x, -y, m);
}

/// After `k` rotations, slot `i` holds the window that was in slot `i - k`
/// (counting around the layout).
pub proof fn lemma_rotated_times(s: Seq<Hwnd>, k: nat)
    requires
        s.len() > 0,
    ensures
        rotated_times(s, k).len() == s.len(),
        forall|i: int|
            0 <= i < s.len() ==> #[trigger] rotated_times(s, k)[i] == s[(i - k) % (
            s.len() as int)],
    decreases k,
{
    let n = s.len() as int;
    if k == 0 {
        assert forall|i: int| 0 <= i < n implies #[trigger] rotated_times(s, k)[i] == s[(i - k)
            % n] by {
            lemma_small_mod(i as nat, n as nat);
        }
    } else {
        lemma_rotated_times(s, (k - 1) as nat);
        let prev = rotated_times(s, (k - 1) as nat);
        assert forall|i: int| 0 <= i < n implies #[trigger] rotated_times(s, k)[i] == s[(i - k)
            % n] by {
            let j = (i + n - 1) % n;
            assert(0 <= j < n);
            assert(rotated_times(s, k)[i] == prev[j]);
            assert(prev[j] == s[(j - (k - 1)) % n]);
            lemma_mod_shift(i + n - 1, k - 1, n);
            lemma_add_mod_noop(i - k, n, n);
            lemma_add_mod_noop(i - k, 0, n);
            assert((i + n - 1 - (k - 1)) == (i - k) + n);
            assert(n % n == 0) by {
                vstd::arithmetic::div_mod::lemma_mod_self_0(n);
            }
            assert(0int % n == 0) by {
                lemma_small_mod(0, n as nat);
            }
        }
    }
}

/// Rotating a layout of `n` windows `n` times gives back the arrangement one
/// started with.
pub proof fn lemma_rotate_full_cycle(s: Seq<Hwnd>)
    ensures
        rotated_times(s, s.len()) == s,
{
    if s.len() == 0 {
        assert(rotated_times(s, 0) == s);
        assert(rotated_times(s, s.len()) =~= s);
    } else {
        lemma_rotated_times(s, s.len());
        let n = s.len() as int;
        assert forall|i: int| 0 <= i < n implies #[trigger] rotated_times(s, s.len())[i] == s[i] by {
            lemma_add_mod_noop(i, -n, n);
            vstd::arithmetic::div_mod::lemma_mod_sub_multiples_vanish(i, n);
            lemma_small_mod(i as nat, n as nat);
        }
        assert(rotated_times(s, s.len()) =~= s);
    }
}

/// A rotation keeps every window in the layout: the window of slot `i` moves
/// to slot `i + 1`, or to slot 0 from the last slot.
pub proof fn lemma_rotate_moves_forward(s: Seq<Hwnd>, i: int)
    requires
        0 <= i < s.len(),
    ensures
        rotated(s)[if i + 1 == s.len() { 0 } else { i + 1 }] == s[i],
        rotated(s).len() == s.len(),
{
    let n = s.len() as int;
    let j = if i + 1 == n { 0 } else { i + 1 };
    if i + 1 == n {
        assert((j + n - 1) % n == i) by {
            lemma_small_mod(i as nat, n as nat);
        }
    } else {
        assert((j + n - 1) % n == i) by {
            vstd::arithmetic::div_mod::lemma_mod_add_multiples_vanish(i, n);
            lemma_small_mod(i as nat, n as nat);
        }
    }
}

/// Rotates every window one slot forward in layout order (slot `i` receives
/// the window of slot `i - 1`, the last wraps to slot 0). `all_alive` tells
/// whether every window of the state still exists. Nothing changes when no
/// layout was applied, a window is gone, or there is at most one window;
/// otherwise the state holds the rotated slots and the result is the
/// arrangement to apply.
pub fn rotate(state: &mut Option<LayoutState>, all_alive: bool) -> (action: Option<(u8, Vec<Hwnd>)>)
    ensures
        match *old(state) {
            Some(st) if all_alive && st.slots.len() > 1 => {
                &&& *final(state) matches Some(nst) && nst.mode == st.mode && nst.slots@ == rotated(st.slots@)
                &&& action matches Some((m, v)) && m == st.mode && v@ == rotated(st.slots@)
            },
            _ => *final(state) == *old(state) && action is None,
        },
{
    let mut st = match state.take() {
        Some(s) => s,
        None => return None,
    };
    if !all_alive {
        *state = Some(st);
        return None;
    }
    let n = st.slots.len();
    if n <= 1 {
        *state = Some(st);
        return None;
    }
    let mut out: Vec<Hwnd> = Vec::new();
    let mut i: usize = 0;
    while i < n
        invariant
            n == st.slots.len(),
            n > 1,
            i <= n,
            out.len() == i,
            forall|j: int| 0 <= j < i ==> out[j] == rotated(st.slots@)[j],
        decreases n - i,
    {
        let from: usize = if i == 0 { n - 1 } else { i - 1 };
        proof {
            let nn = n as int;
            if i == 0 {
                lemma_small_mod((nn - 1) as nat, nn as nat);
            } else {
                vstd::arithmetic::div_mod::lemma_mod_add_multiples_vanish(i - 1, nn);
                lemma_small_mod((i - 1) as nat, nn as nat);
            }
            assert(from == (i + nn - 1) % nn);
        }
        out.push(st.slots[from]);
        i = i + 1;
    }
    assert(out@ =~= rotated(st.slots@));
    let mode = st.mode;
    let applied = out.clone();
    assert(applied@ =~= out@);
    st.slots = out;
    *state = Some(st);
    Some((mode, applied))
}

/// The slots after exchanging the windows of slots `i` and `j`.
pub open spec fn swapped(s: Seq<Hwnd>, i: int, j: int) -> Seq<Hwnd> {
    s.update(i, s[j]).update(j, s[i])
}

/// Swapping the same two slots twice gives back the arrangement.
pub proof fn lemma_swap_twice(s: Seq<Hwnd>, i: int, j: int)
    requires
        0 <= i < s.len(),
        0 <= j < s.len(),
    ensures
        swapped(swapped(s, i, j), j, i) == s,
{
    assert(swapped(swapped(s, i, j), j, i) =~= s);
}

/// The two slots a swap in direction `dir` exchanges: the first slot that
/// holds `fg` and its neighbour that way, when a layout is applied, all its
/// windows are alive, `fg` is in a slot and the layout has such a neighbour
/// holding a window (a layout with fewer windows than slots leaves its last
/// slots empty).
pub open spec fn swap_target(state: Option<LayoutState>, all_alive: bool, fg: Hwnd, dir: u8) -> Option<(int, int)> {
    match state {
        Some(st) => {
            let first = st.slots@.index_of_first(fg);
            if all_alive && first is Some && neighbor(st.mode, first->0 as usize, dir) is Some
                && neighbor(st.mode, first->0 as usize, dir)->0 < st.slots.len() {
                Some((first->0, neighbor(st.mode, first->0 as usize, dir)->0 as int))
            } else {
                None
            }
        },
        None => None,
    }
}

/// Swaps the window `fg` with the window of its neighbour slot in direction
/// `dir` (0 = left, 1 = right, 2 = up, 3 = down). `all_alive` tells whether
/// every window of the state still exists. Nothing changes when no layout was
/// applied, a window is gone, `fg` is in no slot, or there is no neighbour
/// window that way (no neighbour slot, or an empty one); otherwise the first
/// slot holding `fg` and the neighbour slot exchange their windows and the
/// result is the arrangement to apply.
pub fn swap_direction(state: &mut Option<LayoutState>, all_alive: bool, fg: Hwnd, dir: u8) -> (action: Option<(u8, Vec<Hwnd>)>)
    ensures
        match swap_target(*old(state), all_alive, fg, dir) {
            Some((idx, nbr)) => {
                let st = old(state)->0;
                &&& *final(state) matches Some(nst) && nst.mode == st.mode && nst.slots@ == swapped(st.slots@, idx, nbr)
                &&& action matches Some((m, v)) && m == st.mode && v@ == swapped(st.slots@, idx, nbr)
            },
            None => *final(state) == *old(state) && action is None,
        },
{
    let mut st = match state.take() {
        Some(s) => s,
        None => return None,
    };
    if !all_alive {
        *state = Some(st);
        return None;
    }
    proof {
        st.slots@.index_of_first_ensures(fg);
    }
    let n = st.slots.len();
    let mut idx: usize = 0;
    while idx < n
        invariant
            n == st.slots.len(),
            idx <= n,
            forall|j: int| 0 <= j < idx ==> st.slots[j] != fg,
        ensures
            idx <= n,
            forall|j: int| 0 <= j < idx ==> st.slots[j] != fg,
            idx < n ==> st.slots[idx as int] == fg,
        decreases n - idx,
    {
        if st.slots[idx] == fg {
            break;
        }
        idx = idx + 1;
    }
    if idx == n {
        assert(!st.slots@.contains(fg));
        *state = Some(st);
        return None;
    }
    assert(st.slots@[idx as int] == fg);
    assert(st.slots@.index_of_first(fg) == Some(idx as int));
    let nbr = match neighbor_slot(st.mode, idx, dir) {
        Some(j) => j,
        None => {
            *state = Some(st);
            return None;
        },
    };
    if nbr >= n {
        *state = Some(st);
        return None;
    }
    let a = st.slots[idx];
    let b = st.slots[nbr];
    st.slots.set(idx, b);
    st.slots.set(nbr, a);
    let mode = st.mode;
    let applied = st.slots.clone();
    assert(applied@ =~= st.slots@);
    *state = Some(st);
    Some((mode, applied))
}

/// Swapping back in the opposite direction undoes a swap: after the window
/// `fg` moved to the neighbour slot, moving it the other way exchanges the
/// same two slots again and restores the arrangement. This needs distinct
/// windows in the slots, and fails only from the right-bottom slot of the
/// three-window layout going left.
pub proof fn lemma_swap_back_restores(st: LayoutState, nst: LayoutState, fg: Hwnd, dir: u8)
    requires
        dir <= 3,
        st.slots@.no_duplicates(),
        swap_target(Some(st), true, fg, dir) matches Some((i, j)) && !(
        st.mode == 3 && i == 2 && dir == 0) && nst.mode == st.mode && nst.slots@ == swapped(
            st.slots@,
            i,
            j,
        ),
    ensures
        swap_target(Some(st), true, fg, dir) matches Some((i, j)) && swap_target(
            Some(nst),
            true,
            fg,
            opposite(dir),
        ) == Some((j, i)) && swapped(nst.slots@, j, i) == st.slots@,
{
    let s = st.slots@;
    let (i, j) = swap_target(Some(st), true, fg, dir)->0;
    s.index_of_first_ensures(fg);
    lemma_neighbor_symmetric(st.mode, i as usize, dir);
    let t = nst.slots@;
    assert(t[j] == fg);
    assert forall|k: int| 0 <= k < j implies t[k] != fg by {
        if k == i {
            assert(t[k] == s[j]);
            assert(s[j] != s[i]);
        } else {
            assert(t[k] == s[k]);
            if s[k] == fg {
                assert(s[k] == s[i]);
            }
        }
    }
    t.index_of_first_ensures(fg);
    assert(t.contains(fg));
    let f = t.index_of_first(fg)->0;
    assert(f == j) by {
        if f < j {
        } else if f > j {
        }
    }
    lemma_swap_twice(s, i, j);
}

/// Window-to-rectangle pairs: slot `i` gets rectangle `i`, for as many slots
/// as both sequences have.
pub open spec fn placements(slots: Seq<Hwnd>, rects: Seq<Rect>) -> Seq<(Hwnd, Rect)> {
    let n = if slots.len() < rects.len() { slots.len() } else { rects.len() };
    Seq::new(n, |i: int| (slots[i], rects[i]))
}

/// Slot `i`'s window goes to the `i`-th rectangle, in slot order, for as
/// many slots as both sequences have.
pub proof fn lemma_placements_in_slot_order(slots: Seq<Hwnd>, rects: Seq<Rect>)
    ensures
        placements(slots, rects).len() == if slots.len() < rects.len() { slots.len() } else { rects.len() },
        forall|i: int|
            0 <= i < placements(slots, rects).len() ==> #[trigger] placements(slots, rects)[i] == (
            slots[i],
            rects[i],
        ),
{
}

fn pair_up(slots: &Vec<Hwnd>, rects: &Vec<Rect>) -> (r: Vec<(Hwnd, Rect)>)
    ensures
        r@ == placements(slots@, rects@),
        r.len() == if slots.len() < rects.len() { slots.len() } else { rects.len() },
        forall|i: int| 0 <= i < r.len() ==> #[trigger] r@[i] == (slots@[i], rects@[i]),
{
    let n: usize = if slots.len() < rects.len() { slots.len() } else { rects.len() };
    let mut out: Vec<(Hwnd, Rect)> = Vec::new();
    let mut i: usize = 0;
    while i < n
        invariant
            n <= slots.len(),
            n <= rects.len(),
            n == placements(slots@, rects@).len(),
            i <= n,
            out.len() == i,
            forall|j: int| 0 <= j < i ==> out[j] == placements(slots@, rects@)[j],
        decreases n - i,
    {
        out.push((slots[i], rects[i]));
        i = i + 1;
    }
    assert(out@ =~= placements(slots@, rects@));
    out
}

/// Records `slots` under layout `mode` as the applied arrangement and returns
/// where each window goes: slot `i` to the `i`-th rectangle of the layout
/// over `area`, for as many slots as both have.
pub fn apply_slots(state: &mut Option<LayoutState>, mode: u8, slots: Vec<Hwnd>, area: &Rect) -> (targets: Vec<(Hwnd, Rect)>)
    requires
        1 <= mode <= 4 ==> area_fits(*area),
    ensures
        *final(state) matches Some(nst) && nst.mode == mode && nst.slots@ == slots@,
        targets@ == placements(slots@, layout_rects(mode, *area)),
        targets.len() == if slots.len() < layout_rects(mode, *area).len() {
            slots.len() as int
        } else {
            layout_rects(mode, *area).len() as int
        },
        forall|i: int|
            0 <= i < targets.len() ==> #[trigger] targets@[i] == (slots@[i], layout_rects(mode, *area)[i]),
{
    let rects = geometry_for(mode, area);
    let targets = pair_up(&slots, &rects);
    *state = Some(LayoutState { mode, slots });
    targets
}

/// Arranges `windows` (eligible windows in z-order) into layout `mode` over
/// `area`: the first windows fill the slots in order, the arrangement is
/// recorded, and the result says where each window goes. With no window, or
/// a mode that has no slot, nothing is recorded and nothing moves.
pub fn arrange(state: &mut Option<LayoutState>, mode: u8, windows: Vec<Hwnd>, area: &Rect) -> (targets: Vec<(Hwnd, Rect)>)
    requires
        windows.len() > 0 && 1 <= mode <= 4 ==> area_fits(*area),
    ensures
        ({
            let n = layout_rects(mode, *area).len();
            let k: int = if windows.len() < n { windows.len() as int } else { n as int };
            if windows.len() == 0 || n == 0 {
                &&& *final(state) == *old(state)
                &&& targets@.len() == 0
            } else {
                &&& *final(state) matches Some(nst) && nst.mode == mode && nst.slots@ == windows@.take(k)
                &&& targets@ == placements(windows@, layout_rects(mode, *area))
                &&& targets@.len() > 0
                &&& targets@.len() == k
                &&& forall|i: int|
                    0 <= i < k ==> #[trigger] targets@[i] == (windows@[i], layout_rects(mode, *area)[i])
            }
        }),
{
    if windows.len() == 0 {
        return Vec::new();
    }
    let rects = geometry_for(mode, area);
    let n = rects.len();
    if n == 0 {
        return Vec::new();
    }
    let k: usize = if windows.len() < n { windows.len() } else { n };
    let mut slots: Vec<Hwnd> = Vec::new();
    let mut i: usize = 0;
    while i < k
        invariant
            k <= windows.len(),
            i <= k,
            slots@ == windows@.take(i as int),
        decreases k - i,
    {
        slots.push(windows[i]);
        i = i + 1;
        assert(slots@ =~= windows@.take(i as int));
    }
    let targets = pair_up(&slots, &rects);
    assert(targets@ =~= placements(windows@, layout_rects(mode, *area)));
    *state = Some(LayoutState { mode, slots });
    targets
}

/// The applied arrangement (mode and per-slot windows), if any.
pub fn current_state(state: &Option<LayoutState>) -> (r: Option<(u8, Vec<Hwnd>)>)
    ensures
        match *state {
            Some(st) => r matches Some((m, v)) && m == st.mode && v@ == st.slots@,
            None => r is None,
        },
{
    match state {
        Some(st) => {
            let v = st.slots.clone();
            assert(v@ =~= st.slots@);
            Some((st.mode, v))
        },
        None => None,
    }
}

} // verus!
