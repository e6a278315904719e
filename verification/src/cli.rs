//! Validation of the separator option: exactly one ASCII character.

use vstd::prelude::*;
use vstd::utf8::{encode_utf8, encode_scalar, char_is_scalar};

verus! {

/// The UTF-8 form of a sequence has at least one byte per character.
proof fn lemma_encode_len_ge(s: Seq<char>)
    ensures
        encode_utf8(s).len() >= s.len(),
    decreases s.len(),
{
    if s.len() > 0 {
        lemma_encode_len_ge(s.drop_first());
        char_is_scalar(s[0]);
        assert(encode_scalar(s[0] as u32).len() >= 1);
    }
}

/// A string is one byte long exactly when it is one ASCII character.
proof fn lemma_single_byte(s: Seq<char>)
    ensures
        encode_utf8(s).len() == 1 <==> (s.len() == 1 && (s[0] as u32) < 128),
{
    if s.len() == 0 {
    } else {
        char_is_scalar(s[0]);
        lemma_encode_len_ge(s.drop_first());
        assert(encode_utf8(s) == encode_scalar(s[0] as u32) + encode_utf8(s.drop_first()));
        if (s[0] as u32) < 128 {
            assert(encode_scalar(s[0] as u32).len() == 1);
        } else {
            assert(encode_scalar(s[0] as u32).len() >= 2);
        }
        if s.len() == 1 {
            assert(encode_utf8(s.drop_first()).len() == 0);
        }
    }
}

/// Reads the separator option: accepts exactly one ASCII character and
/// returns it, and rejects anything else with a usage message.  A string
/// of one byte always holds one ASCII character, so the two conditions
/// coincide with the byte length being 1.
pub fn parse_char(s: &str) -> (r: Result<char, String>)
    ensures
        r is Ok <==> (s@.len() == 1 && (s@[0] as u32) < 128),
        r is Ok ==> r->Ok_0 == s@[0],
        r is Err ==> r->Err_0@ == "Separator must be a single character"@,
{
    proof {
        lemma_single_byte(s@);
    }
    if s.as_bytes().len() != 1 {
        return Err(String::from_str("Separator must be a single character"));
    }
    let c = s.get_char(0);
    if (c as u32) >= 128 {
        // a one-byte string is always ASCII, so this cannot be reached
        proof {
            assert(false);
        }
        return Err(String::from_str("Character must be ASCII"));
    }
    Ok(c)
}

} // verus!
