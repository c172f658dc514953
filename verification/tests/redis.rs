use tuzi_proxy::error::ErrorKind;
use tuzi_proxy::grammar::Step;
use tuzi_proxy::parse::redis::{
    args_count, args_count_applies, req_arg, req_arg_applies, resp, resp_applies, RedisRequest,
    PROTOCOL,
};
use tuzi_proxy::parse::RequestParsedContent;

#[test]
fn args_count_reads_the_command_head() {
    assert_eq!(args_count(b"*3\r\n$3\r\nSET\r\n"), Step::Done(4, 3));
    assert_eq!(args_count(b"*012\r\n"), Step::Done(6, 12));
    assert_eq!(args_count(b"*"), Step::Incomplete);
    assert_eq!(args_count(b"*12"), Step::Incomplete);
    assert_eq!(args_count(b"*12\r"), Step::Incomplete);
    assert_eq!(args_count(b"+OK\r\n"), Step::Failed(0, ErrorKind::Tag));
    assert_eq!(args_count(b"*x\r\n"), Step::Failed(1, ErrorKind::Digit));
    assert_eq!(args_count(b"*3\n"), Step::Failed(2, ErrorKind::CrLf));
}

#[test]
fn args_count_applies_unless_the_count_overflows() {
    assert!(args_count_applies(b"*18446744073709551615\r\n"));
    assert_eq!(args_count(b"*18446744073709551615\r\n"), Step::Done(23, usize::MAX));
    assert!(!args_count_applies(b"*18446744073709551616\r\n"));
    // the digits are read before the line end is seen
    assert!(!args_count_applies(b"*99999999999999999999x"));
    // digits not yet complete are not read yet
    assert!(args_count_applies(b"*99999999999999999999"));
}

#[test]
fn req_arg_reads_one_argument() {
    assert_eq!(req_arg(b"$3\r\nSET\r\n$4\r\n"), Step::Done(9, "SET".to_owned()));
    assert_eq!(req_arg(b"$0\r\n\r\n"), Step::Done(6, "".to_owned()));
    assert_eq!(req_arg(b"$5\r\nab"), Step::Incomplete);
    assert_eq!(req_arg(b"$2\r\nabc\r\n"), Step::Failed(6, ErrorKind::CrLf));
    assert_eq!(req_arg(b"*2\r\n"), Step::Failed(0, ErrorKind::Tag));
    assert!(req_arg_applies(b"$3\r\nSET\r\n"));
    assert!(!req_arg_applies(b"$1\r\n\xff\r\n"));
    assert!(!req_arg_applies(b"$99999999999999999999\r\n"));
}

#[test]
fn resp_reads_simple_and_error_replies() {
    assert_eq!(resp(b"+OK\r\n"), Step::Done(5, (true, "OK".to_owned())));
    assert_eq!(resp(b"-ERR bad\r\n"), Step::Done(10, (false, "ERR bad".to_owned())));
    assert_eq!(resp(b"+OK"), Step::Incomplete);
    assert_eq!(resp(b""), Step::Incomplete);
    assert_eq!(resp(b":1\r\n"), Step::Failed(0, ErrorKind::Tag));
    // the error-reply alternative is the last one tried
    assert_eq!(resp(b"+\r\n"), Step::Failed(0, ErrorKind::Tag));
    assert!(resp_applies(b"+OK\r\n"));
    assert!(!resp_applies(b"+\xff\r\n"));
}

#[test]
fn the_first_complete_command_is_reported_once() {
    let mut r = RedisRequest::new();
    assert!(r.wants_count());
    assert!(r.on_count(2).is_none());
    assert!(!r.wants_count());
    assert!(r.on_arg("GET".to_owned()).is_none());
    let report = r.on_arg("key".to_owned()).expect("first command reported");
    assert_eq!(report.protocol, PROTOCOL);
    assert!(matches!(report.content, RequestParsedContent::Raw));
    assert_eq!(r.args_ref(), &vec!["GET".to_owned(), "key".to_owned()]);
    assert!(r.wants_count());
    assert!(r.on_count(0).is_none());
    assert!(r.on_count(1).is_none());
    assert!(r.on_arg("PING".to_owned()).is_none());
}

#[test]
fn a_command_without_arguments_is_complete_at_once() {
    let mut r = RedisRequest::new();
    assert!(r.on_count(0).is_some());
    assert!(r.wants_count());
}

#[test]
fn an_encoded_argument_reads_back_as_itself() {
    let text = "h\u{e9}llo\r\nworld";
    let mut enc = format!("${}\r\n{}\r\n", text.len(), text).into_bytes();
    let whole = enc.len();
    for k in 0..whole {
        assert_eq!(req_arg(&enc[..k]), Step::Incomplete, "prefix of {} bytes", k);
    }
    enc.extend_from_slice(b"$3\r\nGET\r\n");
    assert_eq!(req_arg(&enc), Step::Done(whole, text.to_owned()));
    assert_eq!(whole, 1 + 2 + 2 + text.len() + 2);
}
