use bittorrent::fileutils::{check_arg_count, format_mode, record_write, WriteProgress, READ_FAILURE, WRITE_FAILURE};

#[test]
fn argument_count() {
    assert_eq!(check_arg_count(3), Ok(()));
    assert_eq!(check_arg_count(2), Err(4));
    assert_eq!(check_arg_count(4), Err(4));
    assert_eq!((READ_FAILURE, WRITE_FAILURE), (8, 16));
}

#[test]
fn partial_writes() {
    assert_eq!(record_write(0, 10, 0), WriteProgress::Stalled);
    assert_eq!(record_write(0, 10, 4), WriteProgress::Partial(4));
    assert_eq!(record_write(4, 10, 6), WriteProgress::Complete);
}

#[test]
fn umask_format() {
    assert_eq!(format_mode(0o22), "022");
    assert_eq!(format_mode(0), "000");
    assert_eq!(format_mode(0o7), "007");
    assert_eq!(format_mode(0o777), "777");
    assert_eq!(format_mode(0o1777), "1777");
}
