use desk_packing::grid::{count_occupied, fill, flatten, join, mirror, render, repeat_pattern, split_rows, turn};
use desk_packing::levels::level1;
use desk_packing::levels::level2;
use desk_packing::levels::level4;
use desk_packing::levels::level5::{build_long_rows, count_long_desks, furnish, Room};
use desk_packing::pattern::{build_alternating, build_lying_row, build_strip_rows, count_strip_desks};
use desk_packing::text::{lines, lines_with_text, parse_number, split_at_every, split_bytes};

fn rows(lines: &[&str]) -> Vec<Vec<u8>> {
    lines.iter().map(|line| line.as_bytes().to_vec()).collect()
}

fn room(width: usize, height: usize, desk_count: usize) -> Room {
    Room { width, height, desk_count }
}

#[test]
fn mirroring_reverses_rows_and_cells() {
    assert_eq!(mirror(&rows(&["ab", "cd", "ef"])), rows(&["fe", "dc", "ba"]));
    assert_eq!(mirror(&rows(&[])), rows(&[]));
}

#[test]
fn mirroring_twice_gives_the_rows_back() {
    let block = rows(&["X.X.XX", "X.X...", "....XX"]);
    assert_eq!(mirror(&mirror(&block)), block);
    let ragged = rows(&["abc", "", "de"]);
    assert_eq!(mirror(&mirror(&ragged)), ragged);
}

#[test]
fn turning_reads_columns_from_the_bottom_up() {
    assert_eq!(turn(&rows(&["ab", "cd", "ef"]), 2, 3), rows(&["eca", "fdb"]));
    assert_eq!(turn(&rows(&["abc"]), 3, 1), rows(&["a", "b", "c"]));
    assert_eq!(turn(&rows(&[]), 2, 0), rows(&["", ""]));
}

#[test]
fn turning_and_turning_back_gives_the_grid() {
    let grid = rows(&["abcd", "efgh", "ijkl"]);
    let there = turn(&grid, 4, 3);
    assert_eq!(there, rows(&["iea", "jfb", "kgc", "lhd"]));
    assert_eq!(mirror(&turn(&there, 3, 4)), grid);
}

#[test]
fn flat_form_and_rows_agree() {
    assert_eq!(flatten(&rows(&["ab", "cd"])), b"abcd".to_vec());
    assert_eq!(split_rows(&b"abcdef".to_vec(), 3, 2), rows(&["abc", "def"]));
}

#[test]
fn patterns_repeat_and_fill() {
    assert_eq!(fill(b'.', 3), b"...".to_vec());
    assert_eq!(repeat_pattern(&b"X.".to_vec(), 2), b"X.X.".to_vec());
    assert_eq!(build_alternating(5), b"X.X.X".to_vec());
    assert_eq!(build_alternating(4), b"X.X.".to_vec());
    assert_eq!(build_alternating(0), b"".to_vec());
    assert_eq!(build_lying_row(8, 2), b"XX.XX.XX".to_vec());
    assert_eq!(build_lying_row(7, 2), b"XX.XX..".to_vec());
    assert_eq!(build_lying_row(7, 3), b"XXX.XXX".to_vec());
    assert_eq!(build_lying_row(6, 3), b"XXX...".to_vec());
}

#[test]
fn rendering_joins_rows_by_line_breaks() {
    assert_eq!(render(&rows(&["X.", ".."])), b"X.\r\n..".to_vec());
    assert_eq!(render(&rows(&["X"])), b"X".to_vec());
    assert_eq!(render(&rows(&[])), b"".to_vec());
    assert_eq!(join(&rows(&["a", "", "b"]), &b"--".to_vec()), b"a----b".to_vec());
    assert_eq!(count_occupied(&rows(&["X.X", "..X"]), 3, 2), 3);
}

#[test]
fn strips_of_desks_of_three_cells() {
    assert_eq!(
        build_strip_rows(5, 5, 3),
        rows(&["X.X.X", "X.X.X", "X.X.X", ".....", "XXX.."])
    );
    assert_eq!(build_strip_rows(7, 3, 3), rows(&["X.X.X.X", "X.X.X.X", "X.X.X.X"]));
    assert_eq!(build_strip_rows(7, 2, 3), rows(&["XXX.XXX", "......."]));
    let r = level4::Room { width: 4, height: 6, desk_count: 3 };
    assert_eq!(
        r.generate_room_table_matrix(),
        b"X.X.\r\nX.X.\r\nX.X.\r\n....\r\nXXX.\r\n....".to_vec()
    );
    let small = level4::Room { width: 3, height: 1, desk_count: 1 };
    assert_eq!(level4::furnish(&vec![small, small]), b"XXX\r\n\r\nXXX\r\n\r\n".to_vec());
    assert_eq!(level4::furnish(&vec![]), b"\r\n\r\n".to_vec());
}

#[test]
fn strips_of_desks_of_two_cells() {
    let c = room(3, 3, 2).generate_room_table_matrix_for_uneven_width();
    assert_eq!(c.grid, rows(&["X.X", "X.X", "..."]));
    assert_eq!(c.placed_count, 2);
    let c = room(5, 5, 0).generate_room_table_matrix_for_uneven_width();
    assert_eq!(c.grid, rows(&["X.X.X", "X.X.X", ".....", "X.X.X", "X.X.X"]));
    assert_eq!(c.placed_count, 6);
    let c = room(5, 4, 0).generate_room_table_matrix_for_uneven_width();
    assert_eq!(c.grid, rows(&["X.X.X", "X.X.X", ".....", "XX.XX"]));
    assert_eq!(c.placed_count, 5);
}

#[test]
fn long_construction_stacks_a_block_and_its_mirror() {
    let c = room(6, 7, 8).generate_room_table_matrix_for_even_width();
    assert_eq!(
        c.grid,
        rows(&["X.X.XX", "X.X...", "....XX", "XX....", "...X.X", "XX.X.X", "......"])
    );
    assert_eq!(c.placed_count, 8);
    assert_eq!(build_long_rows(6, 2), rows(&["X.X.XX", "X.X..."]));
    assert_eq!(build_long_rows(6, 3), rows(&["X.X.XX", "X.X...", "....XX"]));
    assert_eq!(build_long_rows(6, 1), rows(&["XX.XX."]));
    assert_eq!(
        build_long_rows(4, 5),
        rows(&["X.XX", "X...", "..XX", "XX..", "..XX"])
    );
    assert_eq!(room(4, 5, 0).generate_room_table_matrix_for_even_width().placed_count, 5);
}

#[test]
fn long_construction_keeps_the_last_column_of_an_odd_width_empty() {
    assert_eq!(build_long_rows(5, 3), rows(&["X.XX.", "X....", "..XX."]));
    assert_eq!(build_long_rows(1, 2), rows(&[".", "."]));
    assert_eq!(build_long_rows(0, 2), rows(&["", ""]));
    assert_eq!(room(1, 2, 0).generate_room_table_matrix_for_even_width().placed_count, 0);
}

#[test]
fn constructions_along_the_height_are_turned_back() {
    let c = room(3, 1, 1).generate_room_table_matrix_for_uneven_height();
    assert_eq!(c.grid, rows(&[".XX"]));
    assert_eq!(c.placed_count, 1);
    let c = room(3, 2, 0).generate_room_table_matrix_for_even_height();
    assert_eq!(c.grid, rows(&["X.X", "X.X"]));
    assert_eq!(c.placed_count, 2);
    let twin = room(2, 3, 0).generate_room_table_matrix_for_even_width();
    assert_eq!(twin.grid, rows(&["XX", "..", "XX"]));
    assert_eq!(twin.placed_count, 2);
}

#[test]
fn first_of_the_best_candidates_wins() {
    let best = room(3, 1, 1).best_candidate();
    assert_eq!(best.grid, rows(&["XX."]));
    assert_eq!(best.placed_count, 1);
    let best = room(2, 3, 2).best_candidate();
    assert_eq!(best.grid, rows(&["XX", "..", "XX"]));
    assert_eq!(best.placed_count, 2);
    let square = room(2, 2, 1);
    assert_eq!(square.generate_room_table_matrix_for_even_width().placed_count, 1);
    assert_eq!(square.generate_room_table_matrix_for_even_height().placed_count, 1);
    assert_eq!(square.generate_room_table_matrix_for_uneven_width().placed_count, 1);
    assert_eq!(square.generate_room_table_matrix_for_uneven_height().placed_count, 1);
    assert_eq!(square.generate_room_table_matrix_for_uneven_width().grid, rows(&["X.", "X."]));
    assert_eq!(square.best_candidate().grid, rows(&["XX", ".."]));
    assert_eq!(square.generate_room_table_matrix().unwrap(), b"XX\r\n..".to_vec());
    let later = room(5, 5, 6).best_candidate();
    assert_eq!(later.grid, rows(&["X.X.X", "X.X.X", ".....", "X.X.X", "X.X.X"]));
    assert_eq!(later.placed_count, 6);
}

#[test]
fn room_that_misses_its_target_reports_the_grid() {
    assert_eq!(room(3, 1, 1).generate_room_table_matrix().unwrap(), b"XX.".to_vec());
    let miss = room(3, 1, 2).generate_room_table_matrix().unwrap_err();
    assert_eq!((miss.width, miss.height, miss.target, miss.placed), (3, 1, 2, 1));
    assert_eq!(miss.grid, b"XX.".to_vec());
}

#[test]
fn batch_collects_every_failing_room() {
    assert_eq!(furnish(&vec![room(3, 1, 1), room(3, 3, 2)]).unwrap(), b"XX.\r\n\r\nXX.\r\n...\r\nXX.\r\n\r\n".to_vec());
    let failures = furnish(&vec![room(3, 1, 2), room(3, 1, 1), room(3, 3, 9)]).unwrap_err();
    assert_eq!(failures.len(), 2);
    assert_eq!(failures[0].room, 1);
    assert_eq!(failures[1].room, 3);
    assert_eq!(failures[1].mismatch.placed, 2);
    assert_eq!(furnish(&vec![]).unwrap(), b"\r\n\r\n".to_vec());
}

#[test]
fn counting_variant_writes_the_number_of_desks() {
    assert_eq!(level1::map(&level1::Room { width: 7, height: 2 }), b"4".to_vec());
    assert_eq!(level1::map(&level1::Room { width: 2, height: 9 }), b"0".to_vec());
    assert_eq!(level1::map(&level1::Room { width: 30, height: 41 }), b"410".to_vec());
    assert_eq!(level1::reduce(vec![b"4".to_vec(), b"6".to_vec()]), b"4\r\n6\r\n".to_vec());
    let r = level1::Room { width: 1, height: 1 };
    assert_eq!(level1::verify(&r, &b"12".to_vec()), Ok(()));
    assert_eq!(level1::verify(&r, &b"1x".to_vec()), Err(level1::NotANumber));
}

#[test]
fn numbers_are_unsigned_decimals() {
    assert_eq!(parse_number(&b"0".to_vec()), Some(0));
    assert_eq!(parse_number(&b"+17".to_vec()), Some(17));
    assert_eq!(parse_number(&b"007".to_vec()), Some(7));
    assert_eq!(parse_number(&b"".to_vec()), None);
    assert_eq!(parse_number(&b"+".to_vec()), None);
    assert_eq!(parse_number(&b"-3".to_vec()), None);
    assert_eq!(parse_number(&b"3 ".to_vec()), None);
    assert_eq!(parse_number(&b"18446744073709551615".to_vec()), Some(18446744073709551615));
    assert_eq!(parse_number(&b"18446744073709551616".to_vec()), None);
    assert_eq!(parse_number(&b"99999999999999999999999".to_vec()), None);
}

#[test]
fn lines_end_in_line_feeds() {
    assert_eq!(lines(b"a\r\nb\n"), rows(&["a", "b"]));
    assert_eq!(lines(b"a\nb"), rows(&["a", "b"]));
    assert_eq!(lines(b"a\r"), rows(&["a\r"]));
    assert_eq!(lines(b"\n\nx"), rows(&["", "", "x"]));
    assert_eq!(lines(b""), rows(&[]));
    assert_eq!(split_bytes(b"1 2  3", b' '), rows(&["1", "2", "", "3"]));
    assert_eq!(split_bytes(b"", b' '), rows(&[""]));
}

#[test]
fn worked_examples_split_into_their_answers() {
    assert_eq!(level1::split_example(b"4\r\n \t\r\n\r\n6\r\n"), rows(&["4", "6"]));
    assert_eq!(level1::split_example(b"\n\n"), rows(&[]));
    assert_eq!(lines_with_text(b" a \n\x0b\x0c\nb"), rows(&[" a ", "b"]));
    assert_eq!(
        level2::split_example(b"1 1 1\r\n2 2 2\r\n\r\n3 3 3"),
        rows(&["1 1 1\r\n2 2 2", "3 3 3"])
    );
    assert_eq!(level2::split_example(b"\r\n\r\n"), rows(&["", ""]));
    assert_eq!(level2::split_example(b"a\r\n\r\n\r\n\r\nb\r\n"), rows(&["a", "", "b\r\n"]));
    assert_eq!(level2::split_example(b""), rows(&[""]));
    assert_eq!(split_at_every(b"aaa", b"aa"), rows(&["", "a"]));
    assert_eq!(split_at_every(b"ab", b"abc"), rows(&["ab"]));
}

#[test]
fn counts_by_blocks_agree_with_the_rows() {
    for (width, height) in [(3, 3), (5, 5), (5, 4), (8, 7), (7, 8), (2, 2), (1, 1), (9, 13)] {
        let r = room(width, height, 0);
        let per_row = width / 2 + width % 2;
        let tail = match height % 3 {
            0 => 0,
            2 => per_row,
            _ => width / 3 + if width % 3 == 2 { 1 } else { 0 },
        };
        let strips = r.generate_room_table_matrix_for_uneven_width();
        assert_eq!(strips.placed_count, (height / 3) * per_row + tail);
        assert_eq!(strips.placed_count * 2, count_occupied(&strips.grid, width, height));
        let turned = room(height, width, 0).generate_room_table_matrix_for_uneven_height();
        assert_eq!(turned.placed_count, strips.placed_count);
    }
    assert_eq!(room(6, 6, 0).generate_room_table_matrix_for_even_width().placed_count, 8);
    assert_eq!(room(6, 13, 0).generate_room_table_matrix_for_even_width().placed_count, 16);
    assert_eq!(room(6, 12, 0).generate_room_table_matrix_for_even_width().placed_count, 14);
    assert_eq!(room(13, 6, 0).generate_room_table_matrix_for_even_height().placed_count, 16);
    assert_eq!(room(7, 1, 0).generate_room_table_matrix_for_even_width().placed_count, 2);
}

#[test]
fn construction_along_the_height_is_the_transposed_twin() {
    for (width, height) in [(5, 4), (4, 5), (3, 1), (8, 7), (2, 9), (1, 1)] {
        let along = room(width, height, 0).generate_room_table_matrix_for_uneven_height();
        let twin = room(height, width, 0).generate_room_table_matrix_for_uneven_width();
        let long = room(width, height, 0).generate_room_table_matrix_for_even_height();
        let long_twin = room(height, width, 0).generate_room_table_matrix_for_even_width();
        for r in 0..height {
            for c in 0..width {
                assert_eq!(along.grid[r][width - 1 - c], twin.grid[c][r]);
                assert_eq!(long.grid[r][width - 1 - c], long_twin.grid[c][r]);
            }
        }
        assert_eq!(mirror(&turn(&along.grid, width, height)), twin.grid);
    }
}

#[test]
fn every_construction_holds_the_desks_it_counted() {
    for width in 0..12 {
        for height in 0..16 {
            let r = room(width, height, 0);
            assert!(r.generate_room_table_matrix_for_uneven_width().recount(width, height));
            assert!(r.generate_room_table_matrix_for_uneven_height().recount(width, height));
            assert!(r.generate_room_table_matrix_for_even_width().recount(width, height));
            assert!(r.generate_room_table_matrix_for_even_height().recount(width, height));
            assert!(r.best_candidate().recount(width, height));
        }
    }
    assert_eq!(count_strip_desks(5, 4, 2), 5);
    assert_eq!(count_strip_desks(7, 2, 3), 2);
    assert_eq!(count_strip_desks(7, 3, 3), 4);
    assert_eq!(count_long_desks(6, 7), 8);
    assert_eq!(count_long_desks(6, 5), 6);
    assert_eq!(count_long_desks(1, 5), 0);
    assert_eq!(count_long_desks(usize::MAX, 1), usize::MAX / 3);
    let mut wrong = room(6, 7, 0).generate_room_table_matrix_for_even_width();
    wrong.placed_count = 12;
    assert!(!wrong.recount(6, 7));
}

fn neighbours(grid: &Vec<Vec<u8>>, r: usize, c: usize) -> usize {
    let mut found = 0;
    if r > 0 && grid[r - 1][c] == b'X' {
        found += 1;
    }
    if r + 1 < grid.len() && grid[r + 1][c] == b'X' {
        found += 1;
    }
    if c > 0 && grid[r][c - 1] == b'X' {
        found += 1;
    }
    if c + 1 < grid[r].len() && grid[r][c + 1] == b'X' {
        found += 1;
    }
    found
}

#[test]
fn occupied_cells_pair_up_into_desks() {
    for width in 0..13 {
        for height in 0..17 {
            let r = room(width, height, 0);
            let strips = r.generate_room_table_matrix_for_uneven_width().grid;
            let turned = r.generate_room_table_matrix_for_uneven_height().grid;
            let long = r.generate_room_table_matrix_for_even_width().grid;
            let long_turned = r.generate_room_table_matrix_for_even_height().grid;
            for row in 0..height {
                for col in 0..width {
                    if strips[row][col] == b'X' {
                        assert_eq!(neighbours(&strips, row, col), 1);
                    }
                    if turned[row][col] == b'X' {
                        assert_eq!(neighbours(&turned, row, col), 1);
                    }
                    if long[row][col] == b'X' {
                        let found = neighbours(&long, row, col);
                        assert!(found >= 1);
                        if width != 2 && width != 3 && width != 5 {
                            assert_eq!(found, 1);
                        }
                    }
                    if long_turned[row][col] == b'X' {
                        assert!(neighbours(&long_turned, row, col) >= 1);
                    }
                }
            }
        }
    }
    let narrow = room(2, 6, 0).generate_room_table_matrix_for_even_width().grid;
    assert_eq!(narrow, rows(&["XX", "..", "XX", "XX", "..", "XX"]));
    assert_eq!(neighbours(&narrow, 2, 0), 2);
}
