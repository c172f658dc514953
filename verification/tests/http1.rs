use tuzi_proxy::error::ErrorKind;
use tuzi_proxy::grammar::Step;
use tuzi_proxy::parse::http1::{
    begin, begin_applies, header, response_begin, Http1Request, Method, Parser, RequestBegin,
    Version, PROTOCOL,
};
use tuzi_proxy::detect::http_1::respnose_begin;

#[test]
fn begin_reads_a_request_line() {
    let r = begin(b"HEAD /a HTTP/1.0\r\nHost: x\r\n");
    assert_eq!(
        r,
        Step::Done(
            18,
            RequestBegin { method: Method::HEAD, uri: "/a".to_owned(), version: Version::HTTP_10 }
        )
    );
}

#[test]
fn begin_waits_for_more_on_a_prefix() {
    assert_eq!(begin(b""), Step::Incomplete);
    assert_eq!(begin(b"GE"), Step::Incomplete);
    assert_eq!(begin(b"GET /index"), Step::Incomplete);
    assert_eq!(begin(b"GET / HTTP/1.1\r"), Step::Incomplete);
}

#[test]
fn begin_rejects_with_position_and_rule() {
    // unknown method: the last alternative (HEAD) is reported at position 0
    assert_eq!(begin(b"PATCH / HTTP/1.1\r\n"), Step::Failed(0, ErrorKind::Tag));
    // two spaces: the target is empty
    assert_eq!(begin(b"GET  / HTTP/1.1\r\n"), Step::Failed(4, ErrorKind::IsNot));
    // version 1.2 is not accepted
    assert_eq!(begin(b"GET / HTTP/1.2\r\n"), Step::Failed(13, ErrorKind::OneOf));
    // a line ending in LF alone
    assert_eq!(begin(b"GET / HTTP/1.1\n"), Step::Failed(14, ErrorKind::CrLf));
    // a method glued to the target
    assert_eq!(begin(b"GET/ HTTP/1.1\r\n"), Step::Failed(3, ErrorKind::Char));
}

#[test]
fn begin_verdict_stands_when_bytes_arrive() {
    let whole = b"POST /x HTTP/1.1\r\nrest";
    let first = begin(&whole[..18]);
    assert_eq!(first, begin(whole));
    let bad = b"POST  /x";
    assert_eq!(begin(&bad[..6]), begin(bad));
}

#[test]
fn begin_applies_only_to_a_decodable_target() {
    assert!(begin_applies(b"GET /\xc3\xa9 HTTP/1.1\r\n"));
    assert!(!begin_applies(b"GET /\xff HTTP/1.1\r\n"));
    // incomplete lines can still be decoded later
    assert!(begin_applies(b"GET /\xff"));
    let r = begin(b"GET /\xc3\xa9 HTTP/1.1\r\n");
    assert_eq!(
        r,
        Step::Done(
            18,
            RequestBegin { method: Method::GET, uri: "/é".to_owned(), version: Version::HTTP_11 }
        )
    );
}

#[test]
fn header_reads_fields_and_the_end_of_the_block() {
    assert_eq!(
        header(b"Host: example.com\r\nAccept: */*\r\n"),
        Step::Done(19, Some((b"Host".to_vec(), b"example.com".to_vec())))
    );
    assert_eq!(header(b"\r\nbody"), Step::Done(2, None));
    assert_eq!(header(b""), Step::Incomplete);
    assert_eq!(header(b"\r"), Step::Incomplete);
    assert_eq!(header(b"Host: exa"), Step::Incomplete);
    assert_eq!(header(b"Host:example.com\r\n"), Step::Failed(4, ErrorKind::Tag));
    assert_eq!(header(b": x\r\n"), Step::Failed(0, ErrorKind::IsNot));
    assert_eq!(header(b"Host: \r\n"), Step::Failed(6, ErrorKind::IsNot));
}

#[test]
fn response_begin_describes_the_status_line() {
    assert_eq!(
        response_begin(b"HTTP/1.1 200 OK\r\nContent-Length: 0\r\n"),
        Step::Done(17, "version: HTTP/1.1, code: 200".to_owned())
    );
    assert_eq!(
        respnose_begin(b"HTTP/1.0 404 Not Found\r\n"),
        Step::Done(24, "version: HTTP/1.0, code: 404".to_owned())
    );
    // an empty code is accepted
    assert_eq!(
        response_begin(b"HTTP/1.1  x\r\n"),
        Step::Done(13, "version: HTTP/1.1, code: ".to_owned())
    );
    assert_eq!(response_begin(b"HTTP/1.1 200"), Step::Incomplete);
    assert_eq!(response_begin(b"HTTP/2 200 OK\r\n"), Step::Failed(0, ErrorKind::Tag));
    assert_eq!(response_begin(b"HTTP/1.1 2x0 OK\r\n"), Step::Failed(10, ErrorKind::Char));
}

#[test]
fn headers_are_grouped_by_name_in_order_of_first_appearance() {
    let info = RequestBegin { method: Method::GET, uri: "/".to_owned(), version: Version::HTTP_11 };
    let mut request = Http1Request::new(info);
    assert!(!request.on_header(Some((b"A".to_vec(), b"1".to_vec()))));
    assert!(!request.on_header(Some((b"B".to_vec(), b"2".to_vec()))));
    assert!(!request.on_header(Some((b"A".to_vec(), b"3".to_vec()))));
    let fields: Vec<(String, Vec<String>)> =
        request.headers().iter().map(|(k, v)| (k.clone(), v.clone())).collect();
    assert_eq!(
        fields,
        vec![
            ("A".to_owned(), vec!["1".to_owned(), "3".to_owned()]),
            ("B".to_owned(), vec!["2".to_owned()]),
        ]
    );
    assert!(request.on_header(None));
    assert_eq!(request.headers().len(), 2);
    assert_eq!(request.info().uri, "/");
    let data = request.parsed_data();
    assert_eq!(data.protocol, "http/1");
    assert!(matches!(data.content, tuzi_proxy::parse::RequestParsedContent::Raw));
}

#[test]
fn header_utf8_check() {
    assert!(Http1Request::header_applies(&None));
    assert!(Http1Request::header_applies(&Some((b"K".to_vec(), b"v".to_vec()))));
    assert!(!Http1Request::header_applies(&Some((b"K".to_vec(), b"\xff".to_vec()))));
}

#[test]
fn parser_name() {
    assert_eq!(Parser.protocol(), "http/1");
    assert_eq!(PROTOCOL, "http/1");
}
