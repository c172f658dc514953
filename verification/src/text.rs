//! Bytes as text: UTF-8 validation and decoding, and ASCII facts.
use vstd::prelude::*;
use vstd::utf8::*;
use vstd::string::*;

verus! {

/// The characters of bytes that are all ASCII, one character per byte.
pub open spec fn ascii_chars(b: Seq<u8>) -> Seq<char> {
    Seq::new(b.len(), |i: int| b[i] as char)
}

pub open spec fn all_ascii(b: Seq<u8>) -> bool {
    forall|i: int| 0 <= i < b.len() ==> #[trigger] b[i] < 0x80
}

/// ASCII bytes are valid UTF-8 and decode one character per byte.
pub proof fn lemma_ascii_utf8(b: Seq<u8>)
    requires
        all_ascii(b),
    ensures
        valid_utf8(b),
        decode_utf8(b) == ascii_chars(b),
    decreases b.len(),
{
    if b.len() > 0 {
        let b0 = b[0];
        assert(b0 < 0x80);
        assert((b0 & 0x7f) as u32 == b0 as u32) by (bit_vector)
            requires
                b0 < 0x80,
        ;
        let rest = pop_first_scalar(b);
        assert(rest =~= b.subrange(1, b.len() as int));
        assert(all_ascii(rest)) by {
            assert forall|i: int| 0 <= i < rest.len() implies #[trigger] rest[i] < 0x80 by {
                assert(rest[i] == b[i + 1]);
            }
        }
        lemma_ascii_utf8(rest);
        assert(decode_utf8(b) =~= ascii_chars(b));
    } else {
        assert(decode_utf8(b) =~= ascii_chars(b));
    }
}

/// `std::str::from_utf8`: the bytes as a string slice when they are valid
/// UTF-8.  Claimed: the result is present exactly when the bytes are valid
/// UTF-8, and then its UTF-8 encoding is the bytes themselves.
#[verifier::external_body]
fn str_from_utf8(bytes: &[u8]) -> (r: Option<&str>)
    ensures
        r is Some <==> valid_utf8(bytes@),
        r matches Some(s) ==> s.spec_bytes() == bytes@,
{
    match std::str::from_utf8(bytes) {
        Ok(s) => Some(s),
        Err(_) => None,
    }
}

/// Whether the bytes are valid UTF-8.
pub fn is_utf8(bytes: &[u8]) -> (r: bool)
    ensures
        r == valid_utf8(bytes@),
{
    str_from_utf8(bytes).is_some()
}

/// The text that valid UTF-8 bytes encode.
pub fn utf8_string(bytes: &[u8]) -> (r: String)
    requires
        valid_utf8(bytes@),
    ensures
        r@ == decode_utf8(bytes@),
{
    match str_from_utf8(bytes) {
        Some(s) => {
            proof {
                encode_utf8_decode_utf8(s@);
            }
            s.to_owned()
        },
        None => {
            proof {
                assert(false);
            }
            String::new()
        },
    }
}

/// Whether two strings hold the same text.
pub fn same_text(a: &str, b: &str) -> (r: bool)
    ensures
        r == (a@ == b@),
{
    let x = a.as_bytes();
    let y = b.as_bytes();
    proof {
        encode_utf8_decode_utf8(a@);
        encode_utf8_decode_utf8(b@);
    }
    if x.len() != y.len() {
        return false;
    }
    let mut i: usize = 0;
    while i < x.len()
        invariant
            i <= x@.len(),
            x@.len() == y@.len(),
            x@ == a.spec_bytes(),
            y@ == b.spec_bytes(),
            forall|j: int| 0 <= j < i ==> x@[j] == y@[j],
        decreases x@.len() - i,
    {
        if x[i] != y[i] {
            assert(x@[i as int] != y@[i as int]);
            assert(x@ != y@);
            return false;
        }
        i = i + 1;
    }
    assert(x@ =~= y@);
    true
}

} // verus!
