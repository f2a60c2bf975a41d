use snapdock::layout::{
    apply_slots, arrange, current_state, geometry_for, neighbor_slot, rotate, swap_direction,
    LayoutState, Rect,
};

fn rect(left: i32, top: i32, right: i32, bottom: i32) -> Rect {
    Rect { left, top, right, bottom }
}

#[test]
fn geometry_single() {
    let a = rect(0, 0, 1920, 1040);
    assert_eq!(geometry_for(1, &a), vec![a]);
}

#[test]
fn geometry_halves_round_half_away_from_zero() {
    let a = rect(0, 0, 1921, 1081);
    assert_eq!(
        geometry_for(2, &a),
        vec![rect(0, 0, 961, 1081), rect(961, 0, 1921, 1081)]
    );
    assert_eq!(
        geometry_for(3, &a),
        vec![rect(0, 0, 961, 1081), rect(961, 0, 1921, 541), rect(961, 541, 1921, 1081)]
    );
}

#[test]
fn geometry_grid_with_offset_area() {
    let a = rect(100, 40, 2020, 1080);
    assert_eq!(
        geometry_for(4, &a),
        vec![
            rect(100, 40, 1060, 560),
            rect(1060, 40, 2020, 560),
            rect(100, 560, 1060, 1080),
            rect(1060, 560, 2020, 1080),
        ]
    );
}

#[test]
fn geometry_negative_width_rounds_away_from_zero() {
    // width -3: half is -1.5, which rounds to -2
    let a = rect(10, 0, 7, 4);
    assert_eq!(geometry_for(2, &a), vec![rect(10, 0, 8, 4), rect(8, 0, 7, 4)]);
}

#[test]
fn geometry_unknown_mode_is_empty() {
    let a = rect(0, 0, 100, 100);
    assert!(geometry_for(0, &a).is_empty());
    assert!(geometry_for(5, &a).is_empty());
}

#[test]
fn layout_tiles_the_area() {
    let a = rect(3, 7, 1004, 777);
    for mode in 1u8..=4 {
        let rs = geometry_for(mode, &a);
        assert_eq!(rs.len(), mode as usize);
        for x in (a.left..a.right).step_by(37) {
            for y in (a.top..a.bottom).step_by(29) {
                let n = rs
                    .iter()
                    .filter(|r| r.left <= x && x < r.right && r.top <= y && y < r.bottom)
                    .count();
                assert_eq!(n, 1, "mode {} point ({}, {})", mode, x, y);
            }
        }
    }
}

#[test]
fn neighbor_table() {
    assert_eq!(neighbor_slot(2, 0, 1), Some(1));
    assert_eq!(neighbor_slot(2, 1, 0), Some(0));
    assert_eq!(neighbor_slot(2, 0, 0), None);
    assert_eq!(neighbor_slot(3, 1, 3), Some(2));
    assert_eq!(neighbor_slot(3, 2, 2), Some(1));
    assert_eq!(neighbor_slot(3, 2, 0), Some(0));
    assert_eq!(neighbor_slot(3, 0, 1), Some(1));
    assert_eq!(neighbor_slot(4, 0, 3), Some(2));
    assert_eq!(neighbor_slot(4, 3, 2), Some(1));
    assert_eq!(neighbor_slot(4, 3, 3), None);
    assert_eq!(neighbor_slot(1, 0, 1), None);
}

#[test]
fn neighbors_are_symmetric() {
    for mode in 2u8..=4 {
        for idx in 0usize..4 {
            for dir in 0u8..4 {
                if mode == 3 && idx == 2 && dir == 0 {
                    continue;
                }
                if let Some(j) = neighbor_slot(mode, idx, dir) {
                    let back = match dir {
                        0 => 1,
                        1 => 0,
                        2 => 3,
                        _ => 2,
                    };
                    assert_eq!(neighbor_slot(mode, j, back), Some(idx));
                }
            }
        }
    }
}

#[test]
fn rotate_moves_each_window_forward() {
    let mut st = Some(LayoutState { mode: 4, slots: vec![10, 20, 30, 40] });
    let act = rotate(&mut st, true);
    assert_eq!(act, Some((4, vec![40, 10, 20, 30])));
    assert_eq!(current_state(&st), Some((4, vec![40, 10, 20, 30])));
}

#[test]
fn rotate_full_cycle_restores() {
    let orig = vec![1, 2, 3];
    let mut st = Some(LayoutState { mode: 3, slots: orig.clone() });
    for _ in 0..3 {
        rotate(&mut st, true);
    }
    assert_eq!(current_state(&st), Some((3, orig)));
}

#[test]
fn rotate_is_a_no_op_when_stale_or_trivial() {
    let mut none: Option<LayoutState> = None;
    assert_eq!(rotate(&mut none, true), None);
    assert!(none.is_none());
    let mut st = Some(LayoutState { mode: 2, slots: vec![1, 2] });
    assert_eq!(rotate(&mut st, false), None);
    assert_eq!(current_state(&st), Some((2, vec![1, 2])));
    let mut one = Some(LayoutState { mode: 1, slots: vec![9] });
    assert_eq!(rotate(&mut one, true), None);
    assert_eq!(current_state(&one), Some((1, vec![9])));
}

#[test]
fn swap_with_neighbor_and_back() {
    let mut st = Some(LayoutState { mode: 4, slots: vec![1, 2, 3, 4] });
    assert_eq!(swap_direction(&mut st, true, 2, 3), Some((4, vec![1, 4, 3, 2])));
    assert_eq!(swap_direction(&mut st, true, 2, 2), Some((4, vec![1, 2, 3, 4])));
    assert_eq!(current_state(&st), Some((4, vec![1, 2, 3, 4])));
}

#[test]
fn swap_no_ops() {
    let mut st = Some(LayoutState { mode: 2, slots: vec![1, 2] });
    // foreground window not tiled
    assert_eq!(swap_direction(&mut st, true, 99, 1), None);
    // no neighbour that way
    assert_eq!(swap_direction(&mut st, true, 1, 0), None);
    // a window closed
    assert_eq!(swap_direction(&mut st, false, 1, 1), None);
    assert_eq!(current_state(&st), Some((2, vec![1, 2])));
    let mut none: Option<LayoutState> = None;
    assert_eq!(swap_direction(&mut none, true, 1, 1), None);
}

#[test]
fn arrange_fills_slots_in_order() {
    let a = rect(0, 0, 1000, 800);
    let mut st: Option<LayoutState> = None;
    let t = arrange(&mut st, 2, vec![5, 6, 7], &a);
    assert_eq!(t, vec![(5, rect(0, 0, 500, 800)), (6, rect(500, 0, 1000, 800))]);
    assert_eq!(current_state(&st), Some((2, vec![5, 6])));
}

#[test]
fn arrange_with_fewer_windows_than_slots() {
    let a = rect(0, 0, 1000, 800);
    let mut st: Option<LayoutState> = None;
    let t = arrange(&mut st, 4, vec![5], &a);
    assert_eq!(t, vec![(5, rect(0, 0, 500, 400))]);
    assert_eq!(current_state(&st), Some((4, vec![5])));
}

#[test]
fn arrange_without_windows_or_slots_changes_nothing() {
    let a = rect(0, 0, 1000, 800);
    let mut st = Some(LayoutState { mode: 2, slots: vec![1, 2] });
    assert!(arrange(&mut st, 2, vec![], &a).is_empty());
    assert!(arrange(&mut st, 9, vec![3, 4], &a).is_empty());
    assert_eq!(current_state(&st), Some((2, vec![1, 2])));
}

#[test]
fn apply_slots_records_all_and_moves_what_fits() {
    let a = rect(0, 0, 1000, 800);
    let mut st: Option<LayoutState> = None;
    let t = apply_slots(&mut st, 2, vec![1, 2, 3], &a);
    assert_eq!(t, vec![(1, rect(0, 0, 500, 800)), (2, rect(500, 0, 1000, 800))]);
    assert_eq!(current_state(&st), Some((2, vec![1, 2, 3])));
}

#[test]
fn neighbor_rects_touch_on_that_side() {
    let a = rect(0, 0, 1001, 777);
    for mode in 2u8..=4 {
        let rs = geometry_for(mode, &a);
        for idx in 0usize..4 {
            for dir in 0u8..4 {
                if let Some(j) = neighbor_slot(mode, idx, dir) {
                    let (s, n) = (rs[idx], rs[j]);
                    let ok = match dir {
                        0 => n.right == s.left && n.top < s.bottom && s.top < n.bottom,
                        1 => n.left == s.right && n.top < s.bottom && s.top < n.bottom,
                        2 => n.bottom == s.top && n.left < s.right && s.left < n.right,
                        _ => n.top == s.bottom && n.left < s.right && s.left < n.right,
                    };
                    assert!(ok, "mode {} slot {} dir {}", mode, idx, dir);
                }
            }
        }
    }
}

#[test]
fn unknown_mode_needs_no_area() {
    // the area's width does not fit an i32, but no slot is computed for mode 7
    let a = rect(i32::MIN, 0, i32::MAX, 10);
    assert!(geometry_for(7, &a).is_empty());
    let mut st: Option<LayoutState> = None;
    assert!(arrange(&mut st, 7, vec![1], &a).is_empty());
    assert!(st.is_none());
}

#[test]
fn swap_into_empty_neighbor_slot_is_a_no_op() {
    // grid layout holding two windows: the slots below are empty
    let mut st = Some(LayoutState { mode: 4, slots: vec![1, 2] });
    assert_eq!(swap_direction(&mut st, true, 1, 3), None);
    assert_eq!(current_state(&st), Some((4, vec![1, 2])));
    assert_eq!(swap_direction(&mut st, true, 1, 1), Some((4, vec![2, 1])));
}

#[test]
fn neighbor_exists_exactly_when_a_slot_touches() {
    let a = rect(0, 0, 1001, 777);
    for mode in 1u8..=4 {
        let rs = geometry_for(mode, &a);
        for idx in 0..rs.len() {
            for dir in 0u8..4 {
                let s = rs[idx];
                let touching: Vec<usize> = (0..rs.len())
                    .filter(|&k| k != idx)
                    .filter(|&k| {
                        let n = rs[k];
                        match dir {
                            0 => n.right == s.left && n.top < s.bottom && s.top < n.bottom,
                            1 => n.left == s.right && n.top < s.bottom && s.top < n.bottom,
                            2 => n.bottom == s.top && n.left < s.right && s.left < n.right,
                            _ => n.top == s.bottom && n.left < s.right && s.left < n.right,
                        }
                    })
                    .collect();
                let nb = neighbor_slot(mode, idx, dir);
                assert_eq!(nb.is_some(), !touching.is_empty(), "mode {} slot {} dir {}", mode, idx, dir);
                if let Some(j) = nb {
                    assert!(touching.contains(&j));
                }
            }
        }
    }
}
