//! NFD Unicode normalization helper.
//!
//! NFD is preferred over NFC because Apple's filesystems store filenames in
//! NFD while Linux filesystems typically store them in NFC. Lowercasing after
//! NFD decomposition makes NFC- and NFD-encoded text compare equal.

use vstd::prelude::*;

use super::unicode::{all_ascii, chars_of, nfd, string_of, to_nfd};

verus! {

/// Returns the NFD-normalized form of `input`.
pub fn normalize(input: &str) -> (r: String)
    ensures
        r@ == nfd(input@),
        nfd(r@) == r@,
        all_ascii(input@) ==> r@ == input@,
{
    let cs = chars_of(input);
    let d = to_nfd(cs.as_slice());
    string_of(d.as_slice())
}

} // verus!
