use matrix::matrix::Matrix;

#[test]
fn new_grid_is_all_empty() {
    let m = Matrix::new(8, 3, 2, 10);
    assert_eq!(m.width(), 4);
    assert_eq!(m.height(), 3);
    assert_eq!(m.spawn_count(), 2);
    assert_eq!(m.max_age(), 10);
    for y in 0..3 {
        for x in 0..4 {
            assert!(m.get(y, x).is_none());
        }
    }
}

#[test]
fn age_phase_saturates_at_max_age() {
    let mut m = Matrix::new(2, 1, 1, 3);
    m.spawn_parents();
    assert_eq!(m.get(0, 0).unwrap().age, 0);
    let content = m.get(0, 0).unwrap().content;
    for expect in [1u16, 2, 3, 3, 3] {
        m.age();
        assert_eq!(m.get(0, 0).unwrap().age, expect);
        assert_eq!(m.get(0, 0).unwrap().content, content);
    }
}

#[test]
fn parent_spawn_prefers_empty_and_caps_at_budget() {
    let mut m = Matrix::new(8, 1, 2, 5);
    m.spawn_parents();
    let occupied: Vec<usize> = (0..4).filter(|&x| m.get(0, x).is_some()).collect();
    assert_eq!(occupied.len(), 2);
    m.spawn_parents();
    let occupied: Vec<usize> = (0..4).filter(|&x| m.get(0, x).is_some()).collect();
    assert_eq!(occupied.len(), 4);
    for x in 0..4 {
        assert_eq!(m.get(0, x).unwrap().age, 0);
    }
    // no column is eligible now (none empty, none fully aged): nothing changes
    let before: Vec<_> = (0..4).map(|x| m.get(0, x)).collect();
    m.spawn_parents();
    for x in 0..4 {
        let old = before[x].unwrap();
        let new = m.get(0, x).unwrap();
        assert_eq!(old.age, new.age);
        assert_eq!(old.content, new.content);
    }
}

#[test]
fn spawn_budget_larger_than_grid_degrades_gracefully() {
    let mut m = Matrix::new(4, 1, 10, 2);
    m.spawn_parents();
    for x in 0..2 {
        assert_eq!(m.get(0, x).unwrap().age, 0);
    }
}

#[test]
fn fully_aged_cells_are_replaced() {
    let mut m = Matrix::new(2, 1, 1, 2);
    m.spawn_parents();
    m.age();
    m.age();
    assert_eq!(m.get(0, 0).unwrap().age, 2);
    m.spawn_parents();
    assert_eq!(m.get(0, 0).unwrap().age, 0);
}

#[test]
fn child_spawns_only_below_age_one() {
    let mut m = Matrix::new(2, 3, 1, 5);
    m.spawn_parents();
    m.spawn_children();
    assert!(m.get(1, 0).is_none());
    m.age();
    m.spawn_children();
    assert_eq!(m.get(1, 0).unwrap().age, 0);
    // the newborn child cannot seed a grandchild in the same phase
    assert!(m.get(2, 0).is_none());
}

#[test]
fn update_runs_age_before_child_spawn() {
    let mut m = Matrix::new(2, 2, 1, 5);
    m.update();
    assert_eq!(m.get(0, 0).unwrap().age, 0);
    assert!(m.get(1, 0).is_none());
    m.update();
    assert_eq!(m.get(0, 0).unwrap().age, 1);
    assert_eq!(m.get(1, 0).unwrap().age, 0);
}

#[test]
fn scenario_four_by_three() {
    let mut m = Matrix::new(4, 3, 1, 3);
    // tick 1: exactly one top-row column becomes an age-0 cell
    m.update();
    let occupied: Vec<usize> = (0..2).filter(|&x| m.get(0, x).is_some()).collect();
    assert_eq!(occupied.len(), 1);
    let a = occupied[0];
    let b = 1 - a;
    assert_eq!(m.get(0, a).unwrap().age, 0);
    for y in 1..3 {
        for x in 0..2 {
            assert!(m.get(y, x).is_none());
        }
    }
    // tick 2: the cell ages to 1 before child-spawn checks it, so it seeds
    // a child; the one remaining empty column spawns a parent
    m.update();
    assert_eq!(m.get(0, a).unwrap().age, 1);
    assert_eq!(m.get(0, b).unwrap().age, 0);
    assert_eq!(m.get(1, a).unwrap().age, 0);
    assert!(m.get(1, b).is_none());
    assert!(m.get(2, a).is_none());
    assert!(m.get(2, b).is_none());
    // tick 3: no top-row column is empty or fully aged, so no parent
    // spawns; both age-1 cells seed children
    m.update();
    assert_eq!(m.get(0, a).unwrap().age, 2);
    assert_eq!(m.get(0, b).unwrap().age, 1);
    assert_eq!(m.get(1, a).unwrap().age, 1);
    assert_eq!(m.get(1, b).unwrap().age, 0);
    assert_eq!(m.get(2, a).unwrap().age, 0);
    assert!(m.get(2, b).is_none());
    // tick 4: the first cell reaches age 3 == max_age and is respawned
    m.update();
    assert_eq!(m.get(0, a).unwrap().age, 0);
    assert_eq!(m.get(0, b).unwrap().age, 2);
    assert_eq!(m.get(1, a).unwrap().age, 2);
    assert_eq!(m.get(1, b).unwrap().age, 1);
    assert_eq!(m.get(2, a).unwrap().age, 1);
    assert_eq!(m.get(2, b).unwrap().age, 0);
}

#[test]
fn degenerate_grids_tick_without_spawning() {
    let mut zero_rows = Matrix::new(6, 0, 2, 4);
    zero_rows.update();
    assert_eq!(zero_rows.height(), 0);
    assert_eq!(zero_rows.render().len(), 0);

    let mut zero_cols = Matrix::new(0, 4, 2, 4);
    zero_cols.update();
    let frame = zero_cols.render();
    assert_eq!(frame.len(), 4);
    for row in frame {
        assert_eq!(row.len(), 0);
    }

    let mut one_wide = Matrix::new(1, 2, 1, 4);
    assert_eq!(one_wide.width(), 0);
    one_wide.update();
}

#[test]
fn zero_max_age_keeps_ages_at_zero() {
    let mut m = Matrix::new(4, 2, 1, 0);
    for _ in 0..5 {
        m.update();
    }
    for y in 0..2 {
        for x in 0..2 {
            if let Some(c) = m.get(y, x) {
                assert_eq!(c.age, 0);
            }
        }
    }
}
