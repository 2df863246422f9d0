//! Text as UTF-8 bytes.
//!
//! Two functions of the standard library are used here on trust: what this
//! file says of them is not proved.

use vstd::prelude::*;
use vstd::string::StrSliceExecFns;
use vstd::std_specs::iter::IteratorSpec;
use vstd::utf8::{decode_utf8, encode_utf8, valid_utf8};

verus! {

#[verifier::external_type_specification]
#[verifier::external_body]
pub struct ExUtf8Error(core::str::Utf8Error);

/// `String::push`: the character is added at the end of the text.
pub assume_specification[ String::push ](s: &mut String, ch: char)
    ensures
        final(s)@ == old(s)@.push(ch),
;

/// `core::str::from_utf8`: the bytes are taken as a text where they are
/// the UTF-8 encoding of one, which is then the text that they encode,
/// and are refused where they are not.
pub assume_specification[ core::str::from_utf8 ](v: &[u8]) -> (r: Result<
    &str,
    core::str::Utf8Error,
>)
    ensures
        match r {
            Ok(s) => valid_utf8(v@) && s@ == decode_utf8(v@),
            Err(_) => !valid_utf8(v@),
        },
;

/// The UTF-8 encoding of the characters.
pub fn encode_text(chars: &Vec<char>) -> (r: Vec<u8>)
    ensures
        r@ == encode_utf8(chars@),
{
    let mut s = String::new();
    let mut i: usize = 0;
    while i < chars.len()
        invariant
            i <= chars@.len(),
            s@ == chars@.subrange(0, i as int),
        decreases chars@.len() - i,
    {
        s.push(chars[i]);
        assert(s@ =~= chars@.subrange(0, i + 1));
        i += 1;
    }
    assert(chars@.subrange(0, chars@.len() as int) =~= chars@);
    s.as_str().as_bytes_vec()
}

/// The characters that the bytes encode, where they are the UTF-8
/// encoding of a text.
pub fn decode_text(bytes: &Vec<u8>) -> (r: Option<Vec<char>>)
    ensures
        match r {
            Some(chars) => valid_utf8(bytes@) && chars@ == decode_utf8(bytes@),
            None => !valid_utf8(bytes@),
        },
{
    match core::str::from_utf8(bytes.as_slice()) {
        Ok(s) => {
            broadcast use vstd::string::axiom_spec_iter, vstd::string::next_postcondition;

            let mut out: Vec<char> = Vec::new();
            let mut chars = s.chars();
            let mut more = true;
            while more
                invariant
                    out@ + chars.remaining() == s@,
                    !more ==> chars.remaining().len() == 0,
                decreases
                        s@.len() - out@.len() + if more {
                            1int
                        } else {
                            0int
                        },
            {
                let ghost before = chars.remaining();
                match chars.next() {
                    Some(c) => {
                        out.push(c);
                        assert(out@ + chars.remaining() =~= s@);
                    },
                    None => {
                        more = false;
                    },
                }
            }
            assert(out@ =~= s@);
            Some(out)
        },
        Err(_) => None,
    }
}

} // verus!
