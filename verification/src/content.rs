//! Reading one file's content for the document: a size ceiling checked
//! before anything is loaded, and a decoding step that keeps valid UTF-8 as
//! it is and re-encodes anything else byte by byte, so that every size-checked
//! file yields text.

use vstd::prelude::*;

use vstd::utf8::encode_scalar;
use vstd::utf8::encode_utf8;
use vstd::utf8::valid_utf8;

verus! {

/// Largest file, in bytes, that may flow into a document.
pub const MAX_FILE_SIZE: u64 = 50 * 1024 * 1024;

/// Whether a file of `len` bytes is within the size ceiling.
pub fn size_within_limit(len: u64) -> (r: bool)
    ensures
        r == (len <= MAX_FILE_SIZE),
{
    len <= MAX_FILE_SIZE
}

/// Relies on str::from_utf8, which succeeds exactly on well-formed UTF-8.
#[verifier::external_body]
fn utf8_valid(bytes: &Vec<u8>) -> (r: bool)
    ensures
        r == valid_utf8(bytes@),
{
    std::str::from_utf8(bytes).is_ok()
}

/// Each byte read as the character of the same code point, the fallback
/// reading of content that is not UTF-8.
pub open spec fn latin1_chars(bytes: Seq<u8>) -> Seq<char> {
    bytes.map_values(|b: u8| b as char)
}

proof fn lemma_encode_utf8_push(chars: Seq<char>, c: char)
    ensures
        encode_utf8(chars.push(c)) == encode_utf8(chars) + encode_scalar(c as u32),
    decreases chars.len(),
{
    if chars.len() == 0 {
        assert(chars.push(c).drop_first() =~= Seq::<char>::empty());
        assert(encode_utf8(Seq::<char>::empty()) =~= Seq::<u8>::empty());
        assert(chars.push(c)[0] == c);
        assert(encode_utf8(chars.push(c)) =~= encode_scalar(c as u32));
        assert(encode_utf8(chars) + encode_scalar(c as u32) =~= encode_scalar(c as u32));
    } else {
        assert(chars.push(c).drop_first() =~= chars.drop_first().push(c));
        lemma_encode_utf8_push(chars.drop_first(), c);
        assert(encode_utf8(chars.push(c)) =~= encode_utf8(chars) + encode_scalar(c as u32));
    }
}

/// The text that one file contributes to a document, as UTF-8 bytes: content
/// that already is well-formed UTF-8 passes through unchanged; anything else
/// is read byte by byte as characters of the same code points and re-encoded.
pub fn normalize_content(bytes: &Vec<u8>) -> (r: Vec<u8>)
    ensures
        valid_utf8(bytes@) ==> r@ == bytes@,
        !valid_utf8(bytes@) ==> r@ == encode_utf8(latin1_chars(bytes@)),
{
    if utf8_valid(bytes) {
        let mut r: Vec<u8> = Vec::new();
        let mut i: usize = 0;
        while i < bytes.len()
            invariant
                i <= bytes.len(),
                r@ == bytes@.take(i as int),
            decreases bytes.len() - i,
        {
            r.push(bytes[i]);
            proof {
                assert(bytes@.take(i + 1) =~= bytes@.take(i as int).push(bytes@[i as int]));
            }
            i = i + 1;
        }
        proof {
            assert(bytes@.take(bytes@.len() as int) =~= bytes@);
        }
        r
    } else {
        let mut r: Vec<u8> = Vec::new();
        let mut i: usize = 0;
        while i < bytes.len()
            invariant
                i <= bytes.len(),
                r@ == encode_utf8(latin1_chars(bytes@.take(i as int))),
            decreases bytes.len() - i,
        {
            let b = bytes[i];
            let ghost pre = latin1_chars(bytes@.take(i as int));
            proof {
                assert(latin1_chars(bytes@.take(i + 1)) =~= pre.push(b as char));
                lemma_encode_utf8_push(pre, b as char);
            }
            if b < 0x80 {
                r.push(b);
                proof {
                    assert(b < 0x80 ==> ((b as u32) & 0x7F) as u8 == b) by (bit_vector);
                    assert(encode_scalar(b as u32) =~= seq![b]);
                    assert(r@ =~= encode_utf8(pre) + encode_scalar(b as u32));
                }
            } else {
                let lead: u8 = 0xC0 | (b >> 6);
                let cont: u8 = 0x80 | (b & 0x3F);
                r.push(lead);
                r.push(cont);
                proof {
                    assert(b >= 0x80 ==> (0xC0 | (b >> 6)) == (0xC0 | (((b as u32) >> 6)
                        & 0x1F) as u8)) by (bit_vector);
                    assert((0x80 | (b & 0x3F)) == (0x80 | ((b as u32) & 0x3F) as u8))
                        by (bit_vector);
                    assert(encode_scalar(b as u32) =~= seq![lead, cont]);
                    assert(r@ =~= encode_utf8(pre) + encode_scalar(b as u32));
                }
            }
            i = i + 1;
        }
        proof {
            assert(bytes@.take(bytes@.len() as int) =~= bytes@);
        }
        r
    }
}

} // verus!
