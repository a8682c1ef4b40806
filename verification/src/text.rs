//! Reading UTF-8 text out of received bytes.
use vstd::prelude::*;
use vstd::utf8::valid_utf8;
use vstd::string::StringSliceAdditionalSpecFns;

verus! {

#[verifier::external_type_specification]
#[verifier::external_body]
pub struct ExUtf8Error(std::str::Utf8Error);

/// Calls `std::str::from_utf8`, which, as its documentation says, returns the string slice
/// over the bytes exactly when they are valid UTF-8 and reports an error otherwise.
/// `valid_utf8` is vstd's statement of the same rules (no overlong forms, no surrogates,
/// nothing above U+10FFFF).
#[verifier::external_body]
fn std_str_from_utf8(v: &[u8]) -> (res: Result<&str, std::str::Utf8Error>)
    ensures
        match res {
            Ok(s) => valid_utf8(v@) && s.spec_bytes() == v@,
            Err(_) => !valid_utf8(v@),
        },
{
    std::str::from_utf8(v)
}

/// Reads bytes as UTF-8 text, if they are valid UTF-8.
pub fn string_from_utf8(v: &[u8]) -> (res: Option<String>)
    ensures
        match res {
            Some(s) => valid_utf8(v@) && s@ == vstd::utf8::decode_utf8(v@),
            None => !valid_utf8(v@),
        },
{
    broadcast use vstd::utf8::encode_utf8_decode_utf8;

    match std_str_from_utf8(v) {
        Ok(s) => {
            let owned = s.to_owned();
            assert(vstd::utf8::decode_utf8(s.spec_bytes()) == s@);
            Some(owned)
        },
        Err(_) => None,
    }
}

} // verus!
