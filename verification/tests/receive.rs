use tuzi_proxy::error::{ErrorKind, Needed, NomErr, TuziError};
use tuzi_proxy::parse::http1::{BeginRule, HeaderRule, Method, StatusRule};
use tuzi_proxy::parse::redis::ArgsCountRule;
use tuzi_proxy::parse::{Attempt, ReceiveParser};
use tuzi_proxy::parser::Parser;

#[test]
fn a_rule_waits_for_chunks_and_consumes_what_it_reads() {
    let mut p = ReceiveParser::new(Vec::new());
    assert!(matches!(p.attempt(&BeginRule), Attempt::NeedMore));
    assert!(p.feed(Some(b"GET /x HT".to_vec())).is_ok());
    assert!(matches!(p.attempt(&BeginRule), Attempt::NeedMore));
    assert!(p.feed(Some(b"TP/1.1\r\nHost: a\r\n\r\n".to_vec())).is_ok());
    match p.attempt(&BeginRule) {
        Attempt::Parsed(b) => {
            assert_eq!(b.method, Method::GET);
            assert_eq!(b.uri, "/x");
        }
        _ => panic!("request line expected"),
    }
    assert_eq!(p.pending_ref(), b"Host: a\r\n\r\n");
    assert_eq!(p.recv_content_ref(), b"GET /x HTTP/1.1\r\nHost: a\r\n\r\n");
    match p.attempt(&HeaderRule) {
        Attempt::Parsed(h) => assert_eq!(h, Some((b"Host".to_vec(), b"a".to_vec()))),
        _ => panic!("header expected"),
    }
    match p.attempt(&HeaderRule) {
        Attempt::Parsed(h) => assert_eq!(h, None),
        _ => panic!("end of headers expected"),
    }
    assert_eq!(p.pending_ref(), b"");
    p.clear_recv_content();
    assert_eq!(p.recv_content_ref(), b"");
}

#[test]
fn a_rejection_reports_the_rest_and_changes_nothing() {
    let mut p = ReceiveParser::new(b"HTTP/1.1 20x".to_vec());
    match p.attempt(&StatusRule) {
        Attempt::Failed(TuziError::Nom(NomErr::Error(rest, kind))) => {
            assert_eq!(rest, b"x".to_vec());
            assert_eq!(kind, ErrorKind::Char);
        }
        _ => panic!("rejection expected"),
    }
    assert_eq!(p.pending_ref(), b"HTTP/1.1 20x");
    assert_eq!(p.recv_content_ref(), b"");
}

#[test]
fn the_end_of_the_stream_is_an_incomplete_parse() {
    let mut p = Parser::new(b"*1".to_vec());
    assert!(matches!(p.attempt(&ArgsCountRule), Attempt::NeedMore));
    match p.feed(None) {
        Err(TuziError::Nom(NomErr::Incomplete(Needed::Unknown))) => {}
        _ => panic!("incomplete expected"),
    }
    assert_eq!(p.pending_ref(), b"*1");
    assert!(p.applies(&ArgsCountRule));
}

fn run_loop(init: &[u8], chunks: &[&[u8]]) -> (Option<usize>, Vec<u8>) {
    let mut p = ReceiveParser::new(init.to_vec());
    let mut next = 0;
    loop {
        match p.attempt(&ArgsCountRule) {
            Attempt::Parsed(n) => {
                let mut rest = p.pending_ref().to_vec();
                for c in &chunks[next..] {
                    rest.extend_from_slice(c);
                }
                return (Some(n), rest);
            }
            Attempt::NeedMore => {
                if next == chunks.len() {
                    assert!(p.feed(None).is_err());
                    return (None, p.pending_ref().to_vec());
                }
                assert!(p.feed(Some(chunks[next].to_vec())).is_ok());
                next += 1;
            }
            Attempt::Failed(_) => panic!("no rejection expected"),
        }
    }
}

#[test]
fn where_the_stream_is_cut_changes_nothing() {
    let a = run_loop(b"", &[b"*1", b"2\r", b"\n$4\r\nPING\r\n"]);
    let b = run_loop(b"*", &[b"12\r\n$4", b"\r\nPING\r\n"]);
    let c = run_loop(b"*12\r\n$4\r\nPING\r\n", &[]);
    assert_eq!(a, (Some(12), b"$4\r\nPING\r\n".to_vec()));
    assert_eq!(a, b);
    assert_eq!(a, c);
    let d = run_loop(b"", &[b"*1", b"2"]);
    let e = run_loop(b"*12", &[]);
    assert_eq!(d, (None, b"*12".to_vec()));
    assert_eq!(d, e);
}
