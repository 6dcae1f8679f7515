use desk_packing::labels::{find_left, parse_row, render_labels, render_number};
use desk_packing::levels::level2;
use desk_packing::levels::level2::{place_desks, reduce, verify, verify_grid, Room, VerifyError};
use desk_packing::levels::level3;

fn room(width: usize, height: usize, desk_count: usize) -> Room {
    Room { width, height, desk_count }
}

#[test]
fn room_six_by_two_holds_four_desks() {
    let r = room(6, 2, 4);
    let text = level2::map(&r);
    assert_eq!(text, b"1 1 1 2 2 2\r\n3 3 3 4 4 4\r\n".to_vec());
    assert_eq!(verify(&r, &text), Ok(()));
    assert_eq!(verify_grid(&r, &place_desks(&r)), Ok(()));
    assert_eq!(verify(&room(6, 2, 3), &text), Err(VerifyError::CountMismatch { placed: 4, expected: 3 }));
}

#[test]
fn room_three_by_one_holds_one_desk() {
    let r = room(3, 1, 1);
    assert_eq!(place_desks(&r), vec![vec![1, 1, 1]]);
    assert_eq!(level2::map(&r), b"1 1 1\r\n".to_vec());
    assert_eq!(verify(&r, &level2::map(&r)), Ok(()));
}

#[test]
fn cells_that_no_desk_covers_stay_empty() {
    let r = room(5, 2, 2);
    assert_eq!(place_desks(&r), vec![vec![1, 1, 1, 0, 0], vec![2, 2, 2, 0, 0]]);
    assert_eq!(verify(&r, &level2::map(&r)), Ok(()));
    let narrow = room(2, 1, 0);
    assert_eq!(level2::map(&narrow), b"0 0\r\n".to_vec());
    assert_eq!(verify(&narrow, &level2::map(&narrow)), Ok(()));
}

#[test]
fn label_on_two_desks_is_a_duplicate() {
    let r = room(7, 1, 2);
    assert_eq!(verify(&r, b"1 1 1 0 1 1 1"), Err(VerifyError::DuplicateDesk { label: 1 }));
    let tall = room(4, 3, 2);
    let text = b"7 7 7 7\r\n0 0 0 7\r\n0 0 0 7";
    assert_eq!(verify(&tall, text), Err(VerifyError::DuplicateDesk { label: 7 }));
}

#[test]
fn missing_row_fails_before_any_label_is_read() {
    let r = room(3, 2, 2);
    assert_eq!(verify(&r, b"1 1 1"), Err(VerifyError::RowCount { expected: 2, found: 1 }));
    assert_eq!(verify(&r, b"x y"), Err(VerifyError::RowCount { expected: 2, found: 1 }));
    assert_eq!(verify(&r, b""), Err(VerifyError::RowCount { expected: 2, found: 0 }));
    assert_eq!(
        verify_grid(&r, &vec![vec![1, 1, 1]]),
        Err(VerifyError::RowCount { expected: 2, found: 1 })
    );
}

#[test]
fn field_that_is_no_number_is_reported_with_its_row() {
    let r = room(3, 2, 2);
    assert_eq!(verify(&r, b"1 1 1\r\n2 a 2"), Err(VerifyError::NotNumeric { row: 1 }));
    assert_eq!(verify(&r, b"1 1 1 \r\n2 2 2"), Err(VerifyError::NotNumeric { row: 0 }));
    assert_eq!(verify(&r, b"1 1\r\n2 a 2"), Err(VerifyError::RowWidth { row: 0, expected: 3, found: 2 }));
}

#[test]
fn row_of_another_width_is_reported() {
    let r = room(3, 2, 2);
    assert_eq!(
        verify(&r, b"1 1 1\r\n2 2 2 2"),
        Err(VerifyError::RowWidth { row: 1, expected: 3, found: 4 })
    );
    assert_eq!(
        verify_grid(&r, &vec![vec![1, 1, 1], vec![2, 2]]),
        Err(VerifyError::RowWidth { row: 1, expected: 3, found: 2 })
    );
}

#[test]
fn desk_of_four_cells_is_oversized() {
    assert_eq!(verify(&room(4, 1, 1), b"1 1 1 1"), Err(VerifyError::OversizedDesk { label: 1 }));
}

#[test]
fn fragment_is_malformed() {
    assert_eq!(verify(&room(3, 1, 1), b"2 2 0"), Err(VerifyError::MalformedDesk { label: 2 }));
    assert_eq!(verify(&room(2, 1, 0), b"3 3"), Err(VerifyError::MalformedDesk { label: 3 }));
    assert_eq!(verify(&room(1, 2, 0), b"3\n3"), Err(VerifyError::MalformedDesk { label: 3 }));
}

#[test]
fn upright_desks_are_consumed_after_lying_ones() {
    assert_eq!(verify(&room(1, 3, 1), b"5\r\n5\r\n5"), Ok(()));
    let text = b"1 1 1 4\r\n2 2 2 4\r\n3 3 3 4\r\n";
    assert_eq!(verify(&room(4, 3, 4), text), Ok(()));
    assert_eq!(verify(&room(4, 3, 5), text), Err(VerifyError::CountMismatch { placed: 4, expected: 5 }));
}

#[test]
fn verifying_twice_gives_the_same_verdict() {
    let r = room(7, 1, 2);
    let bad = b"1 1 1 0 1 1 1";
    assert_eq!(verify(&r, bad), verify(&r, bad));
    let good = level2::map(&room(6, 2, 4));
    assert_eq!(verify(&room(6, 2, 4), &good), verify(&room(6, 2, 4), &good));
    let grid = vec![vec![1, 1, 1, 1]];
    let first = verify_grid(&room(4, 1, 1), &grid);
    assert_eq!(grid, vec![vec![1, 1, 1, 1]]);
    assert_eq!(first, verify_grid(&room(4, 1, 1), &grid));
}

#[test]
fn empty_room_takes_no_desk() {
    assert_eq!(verify(&room(0, 0, 0), b""), Ok(()));
    assert_eq!(level2::map(&room(3, 0, 0)), b"\r\n".to_vec());
}

#[test]
fn batch_of_labeled_rooms_is_joined_by_line_breaks() {
    assert_eq!(reduce(vec![b"1 1 1\r\n".to_vec(), b"0\r\n".to_vec()]), b"1 1 1\r\n\r\n0\r\n".to_vec());
    assert_eq!(reduce(vec![]), Vec::<u8>::new());
}

#[test]
fn labels_are_written_in_decimal_digits() {
    assert_eq!(render_number(0), b"0".to_vec());
    assert_eq!(render_number(120), b"120".to_vec());
    assert_eq!(render_labels(&vec![vec![10, 0], vec![7, 305]]), b"10 0\r\n7 305".to_vec());
    assert_eq!(render_labels(&vec![]), Vec::<u8>::new());
}

#[test]
fn rows_are_read_field_by_field() {
    assert_eq!(parse_row(&b"1 22 +3".to_vec()), Some(vec![1, 22, 3]));
    assert_eq!(parse_row(&b"1  2".to_vec()), None);
    assert_eq!(parse_row(&b"".to_vec()), None);
    assert_eq!(parse_row(&b"-1".to_vec()), None);
    assert_eq!(find_left(&vec![vec![0, 0], vec![0, 9], vec![4, 0]]), Some(9));
    assert_eq!(find_left(&vec![vec![0, 0]]), None);
}

#[test]
fn bands_of_three_rows_take_upright_desks_in_the_last_columns() {
    let r = level3::Room { width: 4, height: 4, desk_count: 5 };
    assert_eq!(
        r.place_tables(),
        vec![vec![1, 1, 1, 4], vec![2, 2, 2, 4], vec![3, 3, 3, 4], vec![5, 5, 5, 0]]
    );
    assert_eq!(
        r.generate_room_table_matrix(),
        b"1 1 1 4\r\n2 2 2 4\r\n3 3 3 4\r\n5 5 5 0".to_vec()
    );
    assert_eq!(verify_grid(&room(4, 4, 5), &r.place_tables()), Ok(()));
}

#[test]
fn bands_fill_a_room_of_five_by_six() {
    let r = level3::Room { width: 5, height: 6, desk_count: 10 };
    assert_eq!(
        r.place_tables(),
        vec![
            vec![1, 1, 1, 4, 5],
            vec![2, 2, 2, 4, 5],
            vec![3, 3, 3, 4, 5],
            vec![6, 6, 6, 9, 10],
            vec![7, 7, 7, 9, 10],
            vec![8, 8, 8, 9, 10],
        ]
    );
    assert_eq!(verify_grid(&room(5, 6, 10), &r.place_tables()), Ok(()));
    let narrow = level3::Room { width: 2, height: 3, desk_count: 2 };
    assert_eq!(narrow.place_tables(), vec![vec![1, 2], vec![1, 2], vec![1, 2]]);
    let flat = level3::Room { width: 0, height: 2, desk_count: 0 };
    assert_eq!(flat.place_tables(), vec![Vec::<usize>::new(), Vec::<usize>::new()]);
}

#[test]
fn batch_of_banded_rooms_has_an_empty_line_between_grids() {
    let rooms = vec![
        level3::Room { width: 3, height: 1, desk_count: 1 },
        level3::Room { width: 1, height: 3, desk_count: 1 },
    ];
    assert_eq!(level3::furnish(&rooms), b"1 1 1\r\n\r\n1\r\n1\r\n1".to_vec());
    assert_eq!(level3::furnish(&vec![]), Vec::<u8>::new());
}

#[test]
fn every_generated_grid_verifies() {
    for (width, height) in [(0, 0), (1, 1), (2, 5), (3, 1), (4, 2), (6, 2), (7, 3), (9, 4), (11, 1)] {
        let r = room(width, height, height * (width / 3));
        assert_eq!(verify_grid(&r, &place_desks(&r)), Ok(()));
        if width >= 1 && height >= 1 {
            assert_eq!(verify(&r, &level2::map(&r)), Ok(()));
        }
    }
}

#[test]
fn consumed_labels_are_the_same_on_every_run() {
    let r = room(4, 3, 4);
    let grid = vec![vec![1, 1, 1, 4], vec![2, 2, 2, 4], vec![3, 3, 3, 4]];
    let first = level2::consumed_labels(&r, &grid);
    let second = level2::consumed_labels(&r, &grid);
    assert_eq!(first, second);
    let mut sorted: Vec<usize> = first.into_iter().collect();
    sorted.sort();
    assert_eq!(sorted, vec![1, 2, 3, 4]);
    let partial = level2::consumed_labels(&room(4, 1, 0), &vec![vec![9, 9, 9, 9]]);
    assert_eq!(partial.into_iter().collect::<Vec<usize>>(), vec![9]);
}

#[test]
fn every_banded_grid_verifies() {
    for width in 0..10 {
        for height in 0..10 {
            let desks = (height / 3) * width + (height % 3) * (width / 3);
            let r = level3::Room { width, height, desk_count: desks };
            let grid = r.place_tables();
            assert_eq!(verify_grid(&room(width, height, desks), &grid), Ok(()));
            if width >= 1 && height >= 1 {
                let text = r.generate_room_table_matrix();
                assert_eq!(verify(&room(width, height, desks), &text), Ok(()));
            }
        }
    }
}

#[test]
fn numbers_and_rows_are_written_digit_by_digit() {
    let mut text = b"n=".to_vec();
    desk_packing::labels::write_decimal(&mut text, 9075);
    assert_eq!(text, b"n=9075".to_vec());
    assert_eq!(render_number(usize::MAX), b"18446744073709551615".to_vec());
    assert_eq!(render_number(10), b"10".to_vec());
    assert_eq!(desk_packing::labels::render_row(&vec![3, 0, 12]), b"3 0 12".to_vec());
    assert_eq!(desk_packing::labels::render_row(&vec![]), Vec::<u8>::new());
    assert_eq!(desk_packing::labels::render_row(&vec![7]), b"7".to_vec());
}

#[test]
fn label_on_two_desks_that_stand_apart_is_named() {
    let lying_and_upright = b"4 4 4 0 4\r\n0 0 0 0 4\r\n0 0 0 0 4";
    assert_eq!(
        verify(&room(5, 3, 2), lying_and_upright),
        Err(VerifyError::DuplicateDesk { label: 4 })
    );
    let two_upright = vec![vec![6, 0, 6], vec![6, 0, 6], vec![6, 0, 6]];
    assert_eq!(
        verify_grid(&room(3, 3, 2), &two_upright),
        Err(VerifyError::DuplicateDesk { label: 6 })
    );
    let two_rows = vec![vec![2, 2, 2], vec![0, 0, 0], vec![2, 2, 2]];
    assert_eq!(
        verify_grid(&room(3, 3, 1), &two_rows),
        Err(VerifyError::DuplicateDesk { label: 2 })
    );
    let other_first = vec![vec![9, 9, 9, 0, 9, 9, 9], vec![2, 2, 2, 0, 2, 2, 2]];
    assert_eq!(
        verify_grid(&room(7, 2, 2), &other_first),
        Err(VerifyError::DuplicateDesk { label: 9 })
    );
}
