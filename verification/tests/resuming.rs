use http_resume::framer::ResponseFrame;
use http_resume::request::{build_get_request_string, ByteRange};
use http_resume::resume::ResumeController;
use http_resume::stream::recv_http;

fn response(declared: usize, body: &[u8]) -> Vec<Vec<u8>> {
    let mut first = format!("HTTP/1.1 200 OK\r\nContent-Length: {}\r\n\r\n", declared).into_bytes();
    first.extend_from_slice(body);
    vec![first, Vec::new()]
}

#[test]
fn new_controller_asks_for_everything() {
    let c = ResumeController::new();
    assert!(!c.is_done());
    assert_eq!(c.next_range(), None);
    assert!(c.into_bytes().is_empty());
}

#[test]
fn resume_after_four_bytes() {
    let resource: Vec<u8> = (0u8..10).collect();
    let c = ResumeController::new();
    assert_eq!(build_get_request_string(c.next_range()), "GET / HTTP/1.1\r\nAccept: */*\r\n\r\n");

    let first = recv_http(&response(10, &resource[0..4])).unwrap();
    assert_eq!(first.declared_length, 10);
    assert!(c.accepts(&first));
    let c = c.accept(first);
    assert!(!c.is_done());
    assert_eq!(c.next_range(), Some(ByteRange { begin_index: 4, end_index: 10 }));
    assert_eq!(
        build_get_request_string(c.next_range()),
        "GET / HTTP/1.1\r\nAccept: */*\r\nRange: bytes=4-10\r\n\r\n"
    );

    let second = recv_http(&response(6, &resource[4..10])).unwrap();
    assert!(c.accepts(&second));
    let c = c.accept(second);
    assert!(c.is_done());
    assert_eq!(c.into_bytes(), resource);
}

fn download(resource: &[u8], pieces: &[usize]) -> (Vec<u8>, usize) {
    let mut c = ResumeController::new();
    let mut at = 0;
    let mut connections = 0;
    let mut next = pieces.iter();
    while !c.is_done() {
        let expected = if connections == 0 {
            None
        } else {
            Some(ByteRange { begin_index: at as u32, end_index: resource.len() as u32 })
        };
        assert_eq!(c.next_range(), expected);
        let k = *next.next().expect("the download wanted more connections than pieces");
        let frame = recv_http(&response(resource.len() - at, &resource[at..at + k])).unwrap();
        assert!(c.accepts(&frame));
        c = c.accept(frame);
        at += k;
        connections += 1;
    }
    (c.into_bytes(), connections)
}

#[test]
fn resume_accounting_over_partitions() {
    let resource: Vec<u8> = (0..=255u8).cycle().take(1000).collect();
    let partitions: [&[usize]; 6] =
        [&[1000], &[1, 999], &[999, 1], &[500, 500], &[1, 1, 1, 997], &[250, 250, 250, 250]];
    for pieces in partitions {
        let (got, connections) = download(&resource, pieces);
        assert_eq!(got, resource);
        assert_eq!(connections, pieces.len());
    }
}

#[test]
fn resume_accounting_every_split_in_three() {
    let resource: Vec<u8> = b"0123456789".to_vec();
    for a in 1..9 {
        for b in a + 1..10 {
            let (got, connections) = download(&resource, &[a, b - a, 10 - b]);
            assert_eq!(got, resource);
            assert_eq!(connections, 3);
        }
    }
}

#[test]
fn empty_resource_is_done_after_one_response() {
    let c = ResumeController::new();
    let frame = recv_http(&response(0, b"")).unwrap();
    let c = c.accept(frame);
    assert!(c.is_done());
    assert!(c.into_bytes().is_empty());
}

#[test]
fn a_response_that_brings_nothing_changes_nothing() {
    let c = ResumeController::new();
    let c = c.accept(ResponseFrame { declared_length: 5, body: b"ab".to_vec() });
    let c = c.accept(ResponseFrame { declared_length: 3, body: Vec::new() });
    assert!(!c.is_done());
    assert_eq!(c.next_range(), Some(ByteRange { begin_index: 2, end_index: 5 }));
    assert_eq!(c.into_bytes(), b"ab".to_vec());
}

#[test]
fn later_declared_lengths_do_not_change_the_size() {
    let c = ResumeController::new();
    let c = c.accept(ResponseFrame { declared_length: 6, body: b"ab".to_vec() });
    let c = c.accept(ResponseFrame { declared_length: 100, body: b"cd".to_vec() });
    assert_eq!(c.next_range(), Some(ByteRange { begin_index: 4, end_index: 6 }));
    let c = c.accept(ResponseFrame { declared_length: 1, body: b"ef".to_vec() });
    assert!(c.is_done());
    assert_eq!(c.into_bytes(), b"abcdef".to_vec());
}

#[test]
fn accepts_tells_what_can_be_taken_in() {
    let c = ResumeController::new();
    assert!(c.accepts(&ResponseFrame { declared_length: 3, body: b"abc".to_vec() }));
    assert!(!c.accepts(&ResponseFrame { declared_length: 2, body: b"abc".to_vec() }));
    let c = c.accept(ResponseFrame { declared_length: 5, body: b"abc".to_vec() });
    assert!(c.accepts(&ResponseFrame { declared_length: 0, body: b"de".to_vec() }));
    assert!(!c.accepts(&ResponseFrame { declared_length: 9, body: b"def".to_vec() }));
}
