use tuzi_proxy::collect::StdoutCollector;
use tuzi_proxy::io::{received_chunk, take_exists_content};
use tuzi_proxy::text::{is_utf8, same_text, utf8_string};

#[test]
fn a_read_of_nothing_ends_the_stream() {
    let buf = [1u8, 2, 3, 4];
    assert_eq!(received_chunk(&buf, 0), None);
    assert_eq!(received_chunk(&buf, 3), Some(vec![1, 2, 3]));
}

#[test]
fn read_ahead_content_is_handed_out_once() {
    let mut exists = Some(b"abc".to_vec());
    assert_eq!(take_exists_content(&mut exists), Some(b"abc".to_vec()));
    assert_eq!(exists, None);
    assert_eq!(take_exists_content(&mut exists), None);
    let mut empty = Some(Vec::new());
    assert_eq!(take_exists_content(&mut empty), None);
    assert_eq!(empty, None);
}

#[test]
fn text_helpers() {
    assert!(is_utf8("héllo".as_bytes()));
    assert!(!is_utf8(b"\xc3"));
    assert_eq!(utf8_string("héllo".as_bytes()), "héllo");
    assert!(same_text("redis", "redis"));
    assert!(!same_text("redis", "http/1"));
}

#[test]
fn the_collector_keeps_its_prefix() {
    let c = StdoutCollector::new("==> ");
    assert_eq!(*c.prefix(), "==> ");
}

#[test]
fn a_reader_delivers_what_was_read_ahead_then_what_it_reads() {
    let mut exists = Some(b"ab".to_vec());
    let reads: [&[u8]; 4] = [b"cd", b"e", b"", b"zz"];
    let mut delivered: Vec<Vec<u8>> = Vec::new();
    let mut next = 0;
    loop {
        let chunk = match take_exists_content(&mut exists) {
            Some(c) => Some(c),
            None => {
                let mut buf = [0u8; 4096];
                let r = reads[next];
                next += 1;
                buf[..r.len()].copy_from_slice(r);
                received_chunk(&buf, r.len())
            }
        };
        match chunk {
            Some(c) => delivered.push(c),
            None => break,
        }
    }
    assert_eq!(delivered, vec![b"ab".to_vec(), b"cd".to_vec(), b"e".to_vec()]);
    assert_eq!(delivered.concat(), b"abcde".to_vec());
    assert_eq!(exists, None);
}
