use minesweeper::layout::{cell_origin, locate, BoardLayout};

fn grid() -> BoardLayout {
    BoardLayout { rows: 20, columns: 20, cell_size: 18, gap: 2, origin_x: 0, origin_y: 0 }
}

#[test]
fn centre_of_each_cell_maps_back() {
    let l = grid();
    for r in 0..20usize {
        for c in 0..20usize {
            let x = c as i64 * 20 + 9;
            let y = r as i64 * 20 + 9;
            assert_eq!(locate(&l, x, y), Some((r, c)));
        }
    }
}

#[test]
fn centre_round_trip_with_offset_origin() {
    let l = BoardLayout { rows: 3, columns: 4, cell_size: 7, gap: 3, origin_x: -100, origin_y: 50 };
    for r in 0..3usize {
        for c in 0..4usize {
            let (ox, oy) = cell_origin(&l, r, c).unwrap();
            assert_eq!(locate(&l, ox + 3, oy + 3), Some((r, c)));
        }
    }
    assert_eq!(cell_origin(&l, 2, 3), Some((-70, 70)));
}

#[test]
fn points_in_gaps_map_to_none() {
    let l = grid();
    assert_eq!(locate(&l, 18, 5), None);
    assert_eq!(locate(&l, 19, 5), None);
    assert_eq!(locate(&l, 5, 38), None);
    assert_eq!(locate(&l, 17, 17), Some((0, 0)));
    assert_eq!(locate(&l, 20, 0), Some((0, 1)));
}

#[test]
fn points_outside_the_grid_map_to_none() {
    let l = grid();
    assert_eq!(locate(&l, -1, 5), None);
    assert_eq!(locate(&l, 5, -1), None);
    assert_eq!(locate(&l, 400, 5), None);
    assert_eq!(locate(&l, 5, 405), None);
    assert_eq!(locate(&l, 399 - 2, 390), Some((19, 19)));
}

#[test]
fn extreme_coordinates_do_not_overflow() {
    let l = BoardLayout { rows: 2, columns: 2, cell_size: 1, gap: 0, origin_x: i64::MIN, origin_y: i64::MIN };
    assert_eq!(locate(&l, i64::MAX, i64::MAX), None);
    assert_eq!(locate(&l, i64::MIN + 1, i64::MIN), Some((0, 1)));
    let far = BoardLayout { rows: 2, columns: 2, cell_size: 10, gap: 0, origin_x: i64::MAX - 5, origin_y: 0 };
    assert_eq!(cell_origin(&far, 0, 1), None);
    assert_eq!(cell_origin(&far, 1, 0), Some((i64::MAX - 5, 10)));
}
