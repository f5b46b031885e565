use redis_core::connection::{next_step, Step};

#[test]
fn a_read_of_nothing_with_nothing_pending_closes() {
    assert_eq!(next_step(b"", 0, 1024), Step::Close);
}

#[test]
fn a_read_of_nothing_with_a_request_pending_answers_it() {
    assert_eq!(next_step(b"*1\r\n$4\r\nPI", 0, 1024), Step::Answer);
    assert_eq!(next_step(b"x", 0, 1024), Step::Answer);
}

#[test]
fn a_short_read_that_ends_with_crlf_answers() {
    assert_eq!(next_step(b"*1\r\n$4\r\nPING\r\n", 14, 1024), Step::Answer);
    assert_eq!(next_step(b"\r\n", 2, 1024), Step::Answer);
    assert_eq!(next_step(b"+OK\r\n", 1, 2), Step::Answer);
}

#[test]
fn a_short_read_that_does_not_end_with_crlf_reads_on() {
    assert_eq!(next_step(b"*1\r\n$4\r\nPING", 12, 1024), Step::ReadMore);
    assert_eq!(next_step(b"*1\r\n$4\r\nPING\r", 13, 1024), Step::ReadMore);
    assert_eq!(next_step(b"*1\r\n$4\r\nPING\n", 13, 1024), Step::ReadMore);
    assert_eq!(next_step(b"\n", 1, 1024), Step::ReadMore);
    assert_eq!(next_step(b"\n\r", 2, 1024), Step::ReadMore);
}

#[test]
fn a_full_read_reads_on() {
    let mut input = vec![b'x'; 1022];
    input.extend_from_slice(b"\r\n");
    assert_eq!(next_step(&input, 1024, 1024), Step::ReadMore);
    assert_eq!(next_step(&input, 1023, 1024), Step::Answer);
    assert_eq!(next_step(b"\r\n", 2, 2), Step::ReadMore);
}
