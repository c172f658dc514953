use tuzi_proxy::detect::{detect_protocol, HttpRequestInfo};
use tuzi_proxy::parse::http1::{Method, Version};

#[test]
fn test_detect_protocol() {
    let input = b"GET /list.php?id=43705977 HTTP/1.1\r\nHost: www.google.com\r\nConnection: keep-alive\r\nPragma: no-cache\r\nCache-Control: no-cache\r\nUser-Agent: Mozilla/5.0 (X11; Linux x86_64) AppleWebKit/537.36 (KHTML, like Gecko) Chrome/85.0.4183.102 Safari/537.36\r\nAccept: text/html,application/xhtml+xml,application/xml;q=0.9,image/avif,image/webp,image/apng,*/*;q=0.8,application/signed-exchange;v=b3;q=0.9\r\nAccept-Encoding: gzip, deflate\r\nAccept-Language: en-US,en;q=0.9,zh-CN;q=0.8,zh;q=0.7\r\n\r\n";

    assert_eq!(
        detect_protocol(input, &mut vec![]),
        Some(HttpRequestInfo {
            method: Method::GET,
            uri: "/list.php?id=43705977".to_owned(),
            version: Version::HTTP_11,
        })
    );
}

use tuzi_proxy::detect::{detect_protocol_with_term, http_target_applies, Protocol};
use tuzi_proxy::grammar::Step;
use tuzi_proxy::parse::http1::begin;

#[test]
fn a_recognised_request_gets_the_test_header() {
    let mut out = b"pre".to_vec();
    let info = detect_protocol(b"PUT /p HTTP/1.0\r\nA: b\r\n\r\n", &mut out);
    assert_eq!(
        info,
        Some(HttpRequestInfo { method: Method::PUT, uri: "/p".to_owned(), version: Version::HTTP_10 })
    );
    assert_eq!(out, b"prePUT /p HTTP/1.0\r\nX-Test: Fuck\r\nA: b\r\n\r\n".to_vec());
}

#[test]
fn an_unrecognised_request_leaves_the_buffer_alone() {
    let mut out = b"pre".to_vec();
    assert_eq!(detect_protocol(b"HEAD / HTTP/1.1\r\n", &mut out), None);
    assert_eq!(detect_protocol(b"GET / HTTP/1.1", &mut out), None);
    assert_eq!(detect_protocol(b"GET / HTTP/1.1\n", &mut out), None);
    assert_eq!(out, b"pre".to_vec());
}

#[test]
fn detection_reads_the_target_to_the_end_of_input() {
    // without a space after it the target runs to the end, and the line fails
    let mut out = Vec::new();
    assert_eq!(detect_protocol(b"GET /abc", &mut out), None);
    assert!(http_target_applies(b"GET /\xff HTTP/1.1\r\n") == false);
    assert!(http_target_applies(b"GET /ok HTTP/1.1\r\n"));
}

#[test]
fn detect_protocol_with_term_names_the_protocol() {
    assert_eq!(detect_protocol_with_term(b"DELETE /x"), Some(Protocol::HTTP_1));
    assert_eq!(detect_protocol_with_term(b"*2\r\n"), Some(Protocol::REDIS));
    assert_eq!(detect_protocol_with_term(b"\n\x00"), Some(Protocol::MYSQL));
    assert_eq!(detect_protocol_with_term(b"HEAD /"), None);
    assert_eq!(detect_protocol_with_term(b"GE"), None);
    assert_eq!(detect_protocol_with_term(b""), None);
}

#[test]
fn detection_agrees_with_the_stream_parser() {
    let input = b"DELETE /item/7 HTTP/1.0\r\nHost: h\r\n\r\n";
    let info = detect_protocol(input, &mut Vec::new()).expect("recognised");
    match begin(input) {
        Step::Done(_, line) => {
            assert_eq!(line.method, info.method);
            assert_eq!(line.uri, info.uri);
            assert_eq!(line.version, info.version);
        }
        _ => panic!("request line expected"),
    }
}
