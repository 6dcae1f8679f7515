use desk_packing::input::{
    read_batch, read_pair, read_rooms, read_triple, BatchError, CountedInput, FromLines, Input,
    LineReader, ParseError,
};
use desk_packing::levels::{level1, level2, level3, level4, level5};

#[test]
fn counted_batch_reads_as_many_rooms_as_announced() {
    let input: level1::Input = CountedInput::from_bytes(b"2\r\n3 1\r\n6 2\r\n9 9\r\n").unwrap();
    assert_eq!(input.count, 2);
    assert_eq!(
        input.subtasks(),
        &vec![level1::Room { width: 3, height: 1 }, level1::Room { width: 6, height: 2 }]
    );
    let input: level2::Input = CountedInput::from_bytes(b"1\n6 2 4").unwrap();
    assert_eq!(input.subtasks(), &vec![level2::Room { width: 6, height: 2, desk_count: 4 }]);
    let input: level2::Input = CountedInput::from_bytes(b"0").unwrap();
    assert_eq!(input.subtasks().len(), 0);
}

#[test]
fn counted_batch_reports_what_is_missing() {
    assert_eq!(level1::Input::from_bytes(b"").err(), Some(ParseError::NoCountLine));
    assert_eq!(level1::Input::from_bytes(b"two\n1 1").err(), Some(ParseError::InvalidCount));
    assert_eq!(level1::Input::from_bytes(b"2\n1 1").err(), Some(ParseError::NoLine));
    assert_eq!(level1::Input::from_bytes(b"1\n7").err(), Some(ParseError::MissingHeight));
    assert_eq!(level1::Input::from_bytes(b"1\nx 7").err(), Some(ParseError::InvalidWidth));
    assert_eq!(level1::Input::from_bytes(b"1\n7 y").err(), Some(ParseError::InvalidHeight));
    assert_eq!(level2::Input::from_bytes(b"1\n7 7").err(), Some(ParseError::MissingDeskCount));
    assert_eq!(level2::Input::from_bytes(b"1\n7 7 z").err(), Some(ParseError::InvalidDeskCount));
    assert_eq!(level2::Input::from_bytes(b"2\n7 7 1\na 7 z").err(), Some(ParseError::InvalidWidth));
}

#[test]
fn reader_moves_on_line_by_line() {
    let mut reader = LineReader::new(b"3 1\r\n6 2 4\r\n");
    assert!(!reader.is_done());
    assert_eq!(level1::Room::from_lines(&mut reader), Ok(level1::Room { width: 3, height: 1 }));
    assert_eq!(
        level2::Room::from_lines(&mut reader),
        Ok(level2::Room { width: 6, height: 2, desk_count: 4 })
    );
    assert!(reader.is_done());
    assert_eq!(level2::Room::from_lines(&mut reader), Err(ParseError::NoLine));
    assert_eq!(reader.next, 2);
}

#[test]
fn room_lines_give_their_fields() {
    assert_eq!(read_pair(&b"3 1".to_vec()), Ok((3, 1)));
    assert_eq!(read_pair(&b"3 1 9 x".to_vec()), Ok((3, 1)));
    assert_eq!(read_triple(&b"6 2 4".to_vec()), Ok((6, 2, 4)));
    assert_eq!(read_triple(&b"6 2".to_vec()), Err(ParseError::MissingDeskCount));
    assert_eq!(read_triple(&b"x 2".to_vec()), Err(ParseError::MissingDeskCount));
    assert_eq!(read_triple(&b"6  4".to_vec()), Err(ParseError::InvalidHeight));
}

#[test]
fn listed_batch_reads_every_line_below_the_count() {
    assert_eq!(read_batch(b"1\n3 1 1\n6 2 4\n"), Ok(vec![(3, 1, 1), (6, 2, 4)]));
    assert_eq!(read_batch(b"5"), Ok(vec![]));
    assert_eq!(read_batch(b""), Err(ParseError::NoCountLine));
    assert_eq!(read_batch(b"x\n3 1 1"), Err(ParseError::InvalidCount));
    assert_eq!(read_batch(b"2\n3 1 1\n\n1 1 1"), Err(ParseError::MissingHeight));
    assert_eq!(
        read_rooms(b"2\n1 1 1\n18446744073709551615 2 0"),
        Err(BatchError::TooLarge { room: 2 })
    );
    assert_eq!(read_rooms(b"2\n1 1"), Err(BatchError::Parse(ParseError::MissingDeskCount)));
}

#[test]
fn batches_run_from_text_to_text() {
    assert_eq!(level3::run(b"2\r\n3 1 1\r\n1 3 1\r\n"), Ok(b"1 1 1\r\n\r\n1\r\n1\r\n1".to_vec()));
    assert_eq!(level3::run(b"1\n3 1"), Err(BatchError::Parse(ParseError::MissingDeskCount)));
    assert_eq!(level4::run(b"1\n3 1 1\n"), Ok(b"XXX\r\n\r\n".to_vec()));
    assert_eq!(level4::run(b"1\n3 b 1\n"), Err(ParseError::InvalidHeight));
    assert_eq!(level5::run(b"1\n3 1 1\n").unwrap(), b"XX.\r\n\r\n".to_vec());
    match level5::run(b"2\n3 1 1\n3 1 7\n") {
        Err(level5::RunError::Rooms(failures)) => {
            assert_eq!(failures.len(), 1);
            assert_eq!(failures[0].room, 2);
            assert_eq!(failures[0].mismatch.target, 7);
            assert_eq!(failures[0].mismatch.placed, 1);
        }
        other => panic!("unexpected outcome: {:?}", other),
    }
    match level5::run(b"") {
        Err(level5::RunError::Batch(e)) => assert_eq!(e, BatchError::Parse(ParseError::NoCountLine)),
        other => panic!("unexpected outcome: {:?}", other),
    }
}

#[test]
fn counting_batch_runs_from_text_to_text() {
    assert_eq!(level1::run(b"3\r\n7 2\r\n2 9\r\n30 41\r\n").unwrap(), b"4\r\n0\r\n410\r\n".to_vec());
    assert_eq!(level1::run(b"0\n").unwrap(), b"\r\n".to_vec());
    let rooms = vec![level1::Room { width: 9, height: 5 }, level1::Room { width: 3, height: 1 }];
    assert_eq!(level1::solve(&rooms), Ok(b"15\r\n1\r\n".to_vec()));
    match level1::run(b"2\n3 1\n") {
        Err(level1::RunError::Parse(e)) => assert_eq!(e, ParseError::NoLine),
        other => panic!("unexpected outcome: {:?}", other),
    }
    match level1::run(b"2\n3 1\n18446744073709551615 4\n") {
        Err(level1::RunError::TooLarge { room }) => assert_eq!(room, 2),
        other => panic!("unexpected outcome: {:?}", other),
    }
}
