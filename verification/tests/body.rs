use http_sockets::body::{BodyReader, RETRIES};

#[test]
fn body_without_declared_length_is_empty() {
    let r = BodyReader::new(None, b"stray bytes");
    assert!(!r.wants_more());
    assert!(r.into_body().is_empty());
}

#[test]
fn body_read_to_its_declared_length() {
    let mut r = BodyReader::new(Some(10), b"abcd");
    assert!(r.wants_more());
    r.take_read(b"efg");
    assert!(r.wants_more());
    r.take_read(b"hij");
    assert!(!r.wants_more());
    assert_eq!(r.into_body(), b"abcdefghij".to_vec());
}

#[test]
fn body_complete_with_the_head() {
    let r = BodyReader::new(Some(3), b"xyz");
    assert!(!r.wants_more());
    assert_eq!(r.into_body(), b"xyz".to_vec());
}

#[test]
fn reading_gives_up_after_failed_reads() {
    let mut r = BodyReader::new(Some(100), b"");
    let mut failures = 0;
    while r.wants_more() {
        r.take_error();
        failures += 1;
    }
    assert_eq!(failures, RETRIES);
    assert!(r.into_body().is_empty());
}
