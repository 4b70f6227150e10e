use http_resume::framer::{FrameError, ResponseFrame, Step, StreamFramer};
use http_resume::stream::recv_http;

fn reads(parts: &[&[u8]]) -> Vec<Vec<u8>> {
    parts.iter().map(|p| p.to_vec()).collect()
}

fn frame(r: Result<ResponseFrame, FrameError>) -> (u32, Vec<u8>) {
    match r {
        Ok(f) => (f.declared_length, f.body),
        Err(e) => panic!("no frame: {:?}", e),
    }
}

#[test]
fn whole_response_in_one_read() {
    let r = recv_http(&reads(&[b"HTTP/1.1 200 OK\r\nContent-Length: 5\r\n\r\nhello"]));
    assert_eq!(frame(r), (5, b"hello".to_vec()));
}

#[test]
fn body_in_two_reads() {
    let r = recv_http(&reads(&[b"HTTP/1.1 200 OK\r\nContent-Length: 5\r\n\r\nhel", b"lo"]));
    assert_eq!(frame(r), (5, b"hello".to_vec()));
}

#[test]
fn partial_body_then_close() {
    let r = recv_http(&reads(&[b"HTTP/1.1 200 OK\r\nContent-Length: 5\r\n\r\n", b"hel", b""]));
    assert_eq!(frame(r), (5, b"hel".to_vec()));
}

#[test]
fn header_only_then_close() {
    let r = recv_http(&reads(&[b"HTTP/1.1 200 OK\r\n", b""]));
    match r {
        Err(FrameError::Protocol { header }) => assert_eq!(header, b"HTTP/1.1 200 OK\r\n".to_vec()),
        other => panic!("expected a protocol error, got {:?}", other),
    }
}

#[test]
fn header_body_split_under_every_cut_outside_the_delimiter() {
    let header: &[u8] = b"HTTP/1.1 200 OK\r\nServer: x\r\nContent-Length: 11";
    let body: &[u8] = b"hello world";
    let mut stream = header.to_vec();
    stream.extend_from_slice(b"\r\n\r\n");
    stream.extend_from_slice(body);
    let lo = header.len();
    let hi = header.len() + 4;
    let inside = |cut: usize| lo < cut && cut < hi;
    for a in 1..stream.len() {
        for b in a + 1..stream.len() {
            if inside(a) || inside(b) {
                continue;
            }
            let parts = vec![stream[..a].to_vec(), stream[a..b].to_vec(), stream[b..].to_vec()];
            assert_eq!(frame(recv_http(&parts)), (11, body.to_vec()), "cuts {} {}", a, b);
        }
    }
}

#[test]
fn one_byte_reads_hide_the_delimiter() {
    let stream: &[u8] = b"A: b\r\nContent-Length: 2\r\n\r\nhi";
    let parts: Vec<Vec<u8>> = stream.iter().map(|b| vec![*b]).collect();
    match recv_http(&parts) {
        Err(FrameError::Protocol { header }) => assert_eq!(header, stream.to_vec()),
        other => panic!("expected a protocol error, got {:?}", other),
    }
}

#[test]
fn delimiter_cut_in_two_is_not_seen() {
    let r = recv_http(&reads(&[b"Content-Length: 2\r\n", b"\r\nhi", b""]));
    match r {
        Err(FrameError::Protocol { header }) => {
            assert_eq!(header, b"Content-Length: 2\r\n\r\nhi".to_vec())
        },
        other => panic!("expected a protocol error, got {:?}", other),
    }
}

#[test]
fn later_whole_delimiter_is_taken_when_the_first_was_cut() {
    let r = recv_http(&reads(&[b"Content-Length: 2\r", b"\n\r\nab\r\n\r\nxyz"]));
    assert_eq!(frame(r), (2, b"xy".to_vec()));
}

#[test]
fn partial_delivery_is_no_error() {
    for k in 0..5usize {
        let mut first = b"Content-Length: 5\r\n\r\n".to_vec();
        first.extend_from_slice(&b"hello"[..k]);
        let r = recv_http(&vec![first, Vec::new(), b"never read".to_vec()]);
        assert_eq!(frame(r), (5, b"hello"[..k].to_vec()));
    }
}

#[test]
fn end_of_list_counts_as_end_of_connection() {
    let r = recv_http(&reads(&[b"Content-Length: 9\r\n\r\nabc", b"de"]));
    assert_eq!(frame(r), (9, b"abcde".to_vec()));
}

#[test]
fn missing_length_gives_empty_body_whatever_follows() {
    let r = recv_http(&reads(&[b"HTTP/1.1 200 OK\r\nServer: x\r\n\r\ntrailing bytes", b"more"]));
    assert_eq!(frame(r), (0, Vec::new()));
}

#[test]
fn no_delimiter_is_a_protocol_error() {
    let r = recv_http(&reads(&[b"HTTP/1.1 200 OK\r\nContent-Length: 5\r\n", b"hello"]));
    match r {
        Err(FrameError::Protocol { header }) => {
            assert_eq!(header, b"HTTP/1.1 200 OK\r\nContent-Length: 5\r\nhello".to_vec())
        },
        other => panic!("expected a protocol error, got {:?}", other),
    }
}

#[test]
fn no_reads_at_all_is_a_protocol_error() {
    match recv_http(&Vec::new()) {
        Err(FrameError::Protocol { header }) => assert!(header.is_empty()),
        other => panic!("expected a protocol error, got {:?}", other),
    }
}

#[test]
fn bytes_beyond_the_declared_length_are_left_out() {
    let r = recv_http(&reads(&[b"Content-Length: 3\r\n\r\nabcdef", b"ghi"]));
    assert_eq!(frame(r), (3, b"abc".to_vec()));
    let r = recv_http(&reads(&[b"Content-Length: 4\r\n\r\nab", b"cdef"]));
    assert_eq!(frame(r), (4, b"abcd".to_vec()));
}

#[test]
fn delimiter_inside_the_body_is_body() {
    let r = recv_http(&reads(&[b"Content-Length: 6\r\n\r\na", b"\r\n\r\nb"]));
    assert_eq!(frame(r), (6, b"a\r\n\r\nb".to_vec()));
}

#[test]
fn malformed_length_is_a_format_error() {
    for bad in ["abc", "", " 5", "5 ", "-1", "+", "4294967296", "12x", "99999999999999999999999"] {
        let text = format!("HTTP/1.1 200 OK\r\nContent-Length: {}\r\n\r\nhello", bad);
        match recv_http(&vec![text.into_bytes()]) {
            Err(FrameError::Format { value }) => assert_eq!(value, bad.as_bytes().to_vec()),
            other => panic!("expected a format error for {:?}, got {:?}", bad, other),
        }
    }
}

#[test]
fn format_error_wins_over_a_later_good_length() {
    let r = recv_http(&reads(&[b"Content-Length: x\r\nContent-Length: 5\r\n\r\nhello"]));
    assert!(matches!(r, Err(FrameError::Format { value }) if value == b"x".to_vec()));
    let r = recv_http(&reads(&[b"Content-Length: 5\r\nContent-Length: x\r\n\r\nhello"]));
    assert!(matches!(r, Err(FrameError::Format { value }) if value == b"x".to_vec()));
}

#[test]
fn format_error_names_the_first_bad_value() {
    let r = recv_http(&reads(&[b"Content-Length: 1\r\nContent-Length: a\r\nContent-", b"Length: b\r\n\r\n"]));
    assert!(matches!(r, Err(FrameError::Format { value }) if value == b"a".to_vec()));
}

#[test]
fn last_length_field_wins() {
    let r = recv_http(&reads(&[b"Content-Length: 1\r\nContent-Length: 3\r\n\r\nhello"]));
    assert_eq!(frame(r), (3, b"hel".to_vec()));
}

#[test]
fn length_values_in_every_accepted_form() {
    let r = recv_http(&reads(&[b"Content-Length: +3\r\n\r\nhello"]));
    assert_eq!(frame(r), (3, b"hel".to_vec()));
    let r = recv_http(&reads(&[b"Content-Length: 0003\r\n\r\nhello"]));
    assert_eq!(frame(r), (3, b"hel".to_vec()));
    let r = recv_http(&reads(&[b"Content-Length: 4294967295\r\n\r\nhello"]));
    assert_eq!(frame(r), (4294967295, b"hello".to_vec()));
    let r = recv_http(&reads(&[b"Content-Length: 0\r\n\r\nhello"]));
    assert_eq!(frame(r), (0, Vec::new()));
}

#[test]
fn lines_that_are_no_length_field_are_passed_over() {
    let r = recv_http(&reads(&[b"content-length: 5\r\n\r\nhello"]));
    assert_eq!(frame(r), (0, Vec::new()));
    let r = recv_http(&reads(&[b"Content-Length: 5: 6\r\n\r\nhello"]));
    assert_eq!(frame(r), (0, Vec::new()));
    let r = recv_http(&reads(&[b"Content-Length:5\r\n\r\nhello"]));
    assert_eq!(frame(r), (0, Vec::new()));
    let r = recv_http(&reads(&[b"X-Content-Length: 5\r\n\r\nhello"]));
    assert_eq!(frame(r), (0, Vec::new()));
    let r = recv_http(&reads(&[b"Content-Length : 5\r\n\r\nhello"]));
    assert_eq!(frame(r), (0, Vec::new()));
}

#[test]
fn empty_header_is_a_header() {
    let r = recv_http(&reads(&[b"\r\n\r\nhello"]));
    assert_eq!(frame(r), (0, Vec::new()));
}

#[test]
fn feeding_read_by_read() {
    let framer = StreamFramer::new();
    let framer = match framer.feed(b"HTTP/1.1 200 OK\r\nContent-Le") {
        Step::Continue(next) => next,
        Step::Done(r) => panic!("ended early: {:?}", r),
    };
    let framer = match framer.feed(b"ngth: 4\r\n\r\nab") {
        Step::Continue(next) => next,
        Step::Done(r) => panic!("ended early: {:?}", r),
    };
    let framer = match framer.feed(b"cdef") {
        Step::Continue(next) => next,
        Step::Done(r) => panic!("ended early: {:?}", r),
    };
    match framer.feed(b"ignored") {
        Step::Continue(_) => panic!("went on after the body was complete"),
        Step::Done(r) => assert_eq!(frame(r), (4, b"abcd".to_vec())),
    }
}

#[test]
fn feeding_an_empty_read_ends_the_reading() {
    match StreamFramer::new().feed(b"") {
        Step::Done(Err(FrameError::Protocol { header })) => assert!(header.is_empty()),
        _ => panic!("expected a protocol error"),
    }
    let framer = match StreamFramer::new().feed(b"Content-Length: 7\r\n\r\nabc") {
        Step::Continue(next) => next,
        Step::Done(r) => panic!("ended early: {:?}", r),
    };
    match framer.feed(b"") {
        Step::Done(r) => assert_eq!(frame(r), (7, b"abc".to_vec())),
        Step::Continue(_) => panic!("went on after an empty read"),
    }
}

#[test]
fn feeding_a_bad_header_ends_with_the_format_error() {
    match StreamFramer::new().feed(b"Content-Length: five\r\n\r\nhello") {
        Step::Done(Err(FrameError::Format { value })) => assert_eq!(value, b"five".to_vec()),
        _ => panic!("expected a format error"),
    }
}

#[test]
fn finish_before_and_after_the_header() {
    match StreamFramer::new().finish() {
        Err(FrameError::Protocol { header }) => assert!(header.is_empty()),
        other => panic!("expected a protocol error, got {:?}", other),
    }
    let framer = match StreamFramer::new().feed(b"abc") {
        Step::Continue(next) => next,
        Step::Done(r) => panic!("ended early: {:?}", r),
    };
    match framer.finish() {
        Err(FrameError::Protocol { header }) => assert_eq!(header, b"abc".to_vec()),
        other => panic!("expected a protocol error, got {:?}", other),
    }
    let framer = match StreamFramer::new().feed(b"Content-Length: 2\r\n\r\nx") {
        Step::Continue(next) => next,
        Step::Done(r) => panic!("ended early: {:?}", r),
    };
    assert_eq!(frame(framer.finish()), (2, b"x".to_vec()));
}

#[test]
fn line_break_at_the_end_of_the_header_is_taken_for_the_delimiter() {
    let r = recv_http(&reads(&[b"Content-Length: 1\r\n\r\n\r\nx"]));
    assert_eq!(frame(r), (1, b"\r".to_vec()));
}

#[test]
fn every_cut_in_two_frames_alike_unless_it_cuts_the_delimiter() {
    let stream: &[u8] = b"HTTP/1.1 200 OK\r\nContent-Length: 4\r\n\r\nbody";
    let first_of_delimiter = stream.len() - 8;
    for cut in 1..stream.len() {
        let parts = vec![stream[..cut].to_vec(), stream[cut..].to_vec()];
        let r = recv_http(&parts);
        if first_of_delimiter < cut && cut < first_of_delimiter + 4 {
            match r {
                Err(FrameError::Protocol { header }) => assert_eq!(header, stream.to_vec()),
                other => panic!("cut {}: expected a protocol error, got {:?}", cut, other),
            }
        } else {
            assert_eq!(frame(r), (4, b"body".to_vec()), "cut {}", cut);
        }
    }
}
