use maze_core::grid::{Directions, Vec2i, Vec3i, DIRECTION_COUNT};

#[test]
fn new_takes_column_and_row() {
    assert_eq!(Vec2i::new((3, 8)), Vec2i(3, 8));
    assert_eq!(Vec2i::new((0, 0)), Vec2i(0, 0));
    assert_eq!(Vec2i::new((i32::MAX as usize, 1)), Vec2i(i32::MAX, 1));
}

#[test]
fn new_wraps_beyond_i32() {
    assert_eq!(Vec2i::new((i32::MAX as usize + 1, 0)), Vec2i(i32::MIN, 0));
}

#[test]
fn addition_is_component_wise() {
    assert_eq!(Vec2i(2, 5) + Vec2i(-3, 4), Vec2i(-1, 9));
    assert_eq!(Vec2i(0, 0) + Vec2i(0, 0), Vec2i(0, 0));
    assert_eq!(Vec2i(i32::MAX - 1, i32::MIN + 1) + Vec2i(1, -1), Vec2i(i32::MAX, i32::MIN));
}

#[test]
fn the_four_directions_in_order() {
    assert_eq!(DIRECTION_COUNT, 4);
    assert_eq!(Directions::get_2d(0), Vec2i(0, -1));
    assert_eq!(Directions::get_2d(1), Vec2i(1, 0));
    assert_eq!(Directions::get_2d(2), Vec2i(0, 1));
    assert_eq!(Directions::get_2d(3), Vec2i(-1, 0));
}

#[test]
fn directions_laid_flat() {
    assert_eq!(Directions::get_3d(0), Vec3i(0, 0, -1));
    assert_eq!(Directions::get_3d(1), Vec3i(1, 0, 0));
    assert_eq!(Directions::get_3d(2), Vec3i(0, 0, 1));
    assert_eq!(Directions::get_3d(3), Vec3i(-1, 0, 0));
}

#[test]
fn get_next_steps_one_cell() {
    let p = Vec2i(4, 7);
    assert_eq!(p.get_next(0), Vec2i(4, 6));
    assert_eq!(p.get_next(1), Vec2i(5, 7));
    assert_eq!(p.get_next(2), Vec2i(4, 8));
    assert_eq!(p.get_next(3), Vec2i(3, 7));
    assert_eq!(Vec2i(0, 0).get_next(0), Vec2i(0, -1));
    assert_eq!(Vec2i(0, 0).get_next(3), Vec2i(-1, 0));
}

#[test]
fn four_steps_around_do_come_back_but_need_not_be_taken_so() {
    let p = Vec2i(9, 9);
    assert_eq!(p.get_next(0).get_next(1).get_next(2).get_next(3), p);
    assert_ne!(p.get_next(0).get_next(0), p);
}

#[test]
fn to_usize_rejects_negative_components() {
    assert_eq!(Vec2i(3, 4).to_usize(), Some((3, 4)));
    assert_eq!(Vec2i(0, 0).to_usize(), Some((0, 0)));
    assert_eq!(Vec2i(-1, 4).to_usize(), None);
    assert_eq!(Vec2i(3, -1).to_usize(), None);
    assert_eq!(Vec2i(-1, -1).to_usize(), None);
    assert_eq!(Vec2i(i32::MIN, 0).to_usize(), None);
    assert_eq!(Vec2i(i32::MAX, i32::MAX).to_usize(), Some((i32::MAX as usize, i32::MAX as usize)));
}

#[test]
fn closest_inverts_the_flat_directions() {
    for index in 0..4 {
        assert_eq!(Directions::get_closest(Directions::get_3d(index)), index);
    }
}

#[test]
fn closest_follows_the_greater_component() {
    assert_eq!(Directions::get_closest(Vec3i(1000, -700, -10)), 1);
    assert_eq!(Directions::get_closest(Vec3i(-1000, 0, 999)), 3);
    assert_eq!(Directions::get_closest(Vec3i(3, 500, -4)), 0);
    assert_eq!(Directions::get_closest(Vec3i(3, -500, 4)), 2);
    assert_eq!(Directions::get_closest(Vec3i(i32::MIN, 0, i32::MAX)), 3);
    assert_eq!(Directions::get_closest(Vec3i(i32::MAX, 0, i32::MIN)), 0);
}

#[test]
fn closest_takes_the_first_of_equals() {
    // straight down or up: all four dot products are 0
    assert_eq!(Directions::get_closest(Vec3i(0, -5, 0)), 0);
    assert_eq!(Directions::get_closest(Vec3i(0, 0, 0)), 0);
    // diagonals
    assert_eq!(Directions::get_closest(Vec3i(5, 0, -5)), 0);
    assert_eq!(Directions::get_closest(Vec3i(5, 0, 5)), 1);
    assert_eq!(Directions::get_closest(Vec3i(-5, 0, 5)), 2);
    assert_eq!(Directions::get_closest(Vec3i(-5, 0, -5)), 0);
}

#[test]
fn rotation_visits_each_direction_once() {
    for base in 0..4 {
        let mut seen = [false; 4];
        for k in 0..4 {
            let turned = Directions::rotate(base, k);
            assert_eq!(turned, (base + k) % 4);
            assert!(!seen[turned]);
            seen[turned] = true;
        }
        assert_eq!(seen, [true; 4]);
    }
    assert_eq!(Directions::rotate(3, 1), 0);
    assert_eq!(Directions::rotate(2, 3), 1);
    assert_eq!(Directions::rotate(7, 9), 0);
    assert_eq!(Directions::rotate(usize::MAX, 0), 3);
}
