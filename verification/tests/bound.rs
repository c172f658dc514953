use tuzi_proxy::bound::{
    detect_protocol, parse_failure, DownstreamEvent, DownstreamNext, ProxyToServer,
    ServerToProxy, UpstreamEvent, UpstreamNext,
};
use tuzi_proxy::error::{Needed, NomErr, TuziError};
use tuzi_proxy::parse::{RequestParsedContent, RequestParsedData};

fn parsed(protocol: &'static str, content: RequestParsedContent) -> UpstreamEvent {
    UpstreamEvent::Parsed(RequestParsedData { protocol, content })
}

#[test]
fn the_first_protocol_detected_wins() {
    let mut p = None;
    assert_eq!(detect_protocol(&mut p, "redis"), Some("redis"));
    assert_eq!(p, Some("redis"));
    assert_eq!(detect_protocol(&mut p, "redis"), None);
    assert_eq!(p, Some("redis"));
}

#[test]
fn a_claimed_request_is_announced_and_forwarded() {
    let mut s = ProxyToServer::new(vec!["http/1", "redis"]);
    assert!(matches!(s.start().next, UpstreamNext::Wait));
    let step = s.on_event(UpstreamEvent::Chunk(Some(b"GET / ".to_vec())));
    assert!(step.announce.is_none());
    assert!(matches!(step.next, UpstreamNext::Wait));
    let step = s.on_event(UpstreamEvent::Chunk(Some(b"HTTP/1.1\r\n".to_vec())));
    assert!(matches!(step.next, UpstreamNext::Wait));
    let step = s.on_event(parsed("redis", RequestParsedContent::Failed));
    assert!(matches!(step.next, UpstreamNext::Wait));
    assert!(!s.is_candidate("redis"));
    assert!(s.is_candidate("http/1"));
    let step = s.on_event(parsed("http/1", RequestParsedContent::Raw));
    assert_eq!(step.announce, Some(Some("http/1")));
    match step.next {
        UpstreamNext::Forward(b) => assert_eq!(b, b"GET / HTTP/1.1\r\n".to_vec()),
        _ => panic!("forward expected"),
    }
}

#[test]
fn when_every_parser_gives_up_the_request_passes_through() {
    let mut s = ProxyToServer::new(vec!["http/1", "redis"]);
    s.start();
    s.on_event(UpstreamEvent::Chunk(Some(b"hello".to_vec())));
    s.on_event(UpstreamEvent::Chunk(None));
    let step = s.on_event(parsed("http/1", RequestParsedContent::Failed));
    assert!(step.announce.is_none());
    let step = s.on_event(parsed("redis", RequestParsedContent::Failed));
    assert_eq!(step.announce, Some(None));
    match step.next {
        UpstreamNext::Forward(b) => assert_eq!(b, b"hello".to_vec()),
        _ => panic!("forward expected"),
    }
}

#[test]
fn with_no_parser_the_connection_passes_through_at_once() {
    let mut s = ProxyToServer::new(vec![]);
    let step = s.start();
    assert_eq!(step.announce, Some(None));
    assert!(matches!(step.next, UpstreamNext::Forward(ref b) if b.is_empty()));
}

#[test]
fn the_end_of_the_request_before_a_decision_stops() {
    let mut s = ProxyToServer::new(vec!["http/1"]);
    s.start();
    let step = s.on_event(parsed("http/1", RequestParsedContent::Eof));
    assert!(step.announce.is_none());
    assert!(matches!(step.next, UpstreamNext::Stop));
}

#[test]
fn the_response_is_held_until_the_protocol_is_known() {
    let mut s = ServerToProxy::new();
    assert!(matches!(s.on_event(DownstreamEvent::Chunk(Some(b"+O".to_vec()))), DownstreamNext::Wait));
    assert!(matches!(s.on_event(DownstreamEvent::Chunk(Some(b"K\r\n".to_vec()))), DownstreamNext::Wait));
    match s.on_event(DownstreamEvent::Protocol(Some("redis"))) {
        DownstreamNext::HandOff(p, c) => {
            assert_eq!(p, "redis");
            assert_eq!(c, b"+OK\r\n".to_vec());
        }
        _ => panic!("hand-off expected"),
    }
}

#[test]
fn the_response_passes_through_without_a_protocol() {
    let mut s = ServerToProxy::new();
    s.on_event(DownstreamEvent::Chunk(Some(b"abc".to_vec())));
    match s.on_event(DownstreamEvent::Protocol(None)) {
        DownstreamNext::PassThrough(c) => assert_eq!(c, b"abc".to_vec()),
        _ => panic!("pass-through expected"),
    }
    let mut s = ServerToProxy::new();
    s.on_event(DownstreamEvent::Chunk(Some(b"xyz".to_vec())));
    match s.on_event(DownstreamEvent::Chunk(None)) {
        DownstreamNext::PassThrough(c) => assert_eq!(c, b"xyz".to_vec()),
        _ => panic!("pass-through expected"),
    }
}

#[test]
fn a_parse_error_is_reported_as_failed() {
    let e = TuziError::Nom(NomErr::Incomplete(Needed::Unknown));
    let d = parse_failure("redis", &e);
    assert_eq!(d.protocol, "redis");
    assert!(matches!(d.content, RequestParsedContent::Failed));
}

#[test]
fn each_parser_name_counts_once() {
    let mut s = ProxyToServer::new(vec!["redis", "redis"]);
    assert!(matches!(s.start().next, UpstreamNext::Wait));
    let step = s.on_event(parsed("redis", RequestParsedContent::Failed));
    assert_eq!(step.announce, Some(None));
    assert!(matches!(step.next, UpstreamNext::Forward(_)));
}

#[test]
fn a_single_parser_that_gives_up_lets_the_request_through() {
    let mut s = ProxyToServer::new(vec!["redis"]);
    assert!(matches!(s.start().next, UpstreamNext::Wait));
    s.on_event(UpstreamEvent::Chunk(Some(b"GET / HTTP/1.1\r\n".to_vec())));
    let step = s.on_event(parsed("redis", RequestParsedContent::Failed));
    assert_eq!(step.announce, Some(None));
    match step.next {
        UpstreamNext::Forward(b) => assert_eq!(b, b"GET / HTTP/1.1\r\n".to_vec()),
        _ => panic!("forward expected"),
    }
}

#[test]
fn the_candidates_shrink_by_one_for_each_parser_giving_up() {
    let mut s = ProxyToServer::new(vec!["a", "b", "c", "b"]);
    s.start();
    let step = s.on_event(parsed("b", RequestParsedContent::Failed));
    assert!(step.announce.is_none());
    assert!(s.is_candidate("a") && !s.is_candidate("b") && s.is_candidate("c"));
    let step = s.on_event(parsed("a", RequestParsedContent::Failed));
    assert!(step.announce.is_none());
    let step = s.on_event(parsed("c", RequestParsedContent::Failed));
    assert_eq!(step.announce, Some(None));
}
