use memscan::access::{finish_read, finish_write, read_buffer, AccessError};

#[test]
fn read_buffer_is_zeroed_and_of_the_length_asked_for() {
    assert_eq!(read_buffer(0), Vec::<u8>::new());
    assert_eq!(read_buffer(5), vec![0, 0, 0, 0, 0]);
}

#[test]
fn a_read_that_filled_the_buffer_yields_its_bytes() {
    assert_eq!(finish_read(vec![1, 2, 3, 4], Ok(4)), Ok(vec![1, 2, 3, 4]));
    assert_eq!(finish_read(Vec::new(), Ok(0)), Ok(Vec::new()));
}

#[test]
fn a_short_read_is_an_error() {
    assert_eq!(
        finish_read(vec![1, 2, 0, 0], Ok(2)),
        Err(AccessError::Partial { wanted: 4, moved: 2 })
    );
    assert_eq!(finish_read(vec![0, 0], Ok(0)), Err(AccessError::Partial { wanted: 2, moved: 0 }));
}

#[test]
fn a_read_that_moved_more_than_the_buffer_holds_is_an_error() {
    assert_eq!(finish_read(vec![1, 2], Ok(3)), Err(AccessError::Partial { wanted: 2, moved: 3 }));
}

#[test]
fn a_refused_read_is_an_error() {
    assert_eq!(finish_read(vec![0, 0, 0, 0], Err(14)), Err(AccessError::Refused { errno: 14 }));
}

#[test]
fn a_write_counts_only_when_whole() {
    assert_eq!(finish_write(4, Ok(4)), Ok(()));
    assert_eq!(finish_write(4, Ok(1)), Err(AccessError::Partial { wanted: 4, moved: 1 }));
    assert_eq!(finish_write(4, Err(3)), Err(AccessError::Refused { errno: 3 }));
}

#[test]
fn access_errors_say_what_went_wrong() {
    assert_eq!(AccessError::Refused { errno: 1 }.message(), "the transfer was refused");
    assert_eq!(AccessError::Partial { wanted: 2, moved: 1 }.message(), "the transfer stopped short");
}
