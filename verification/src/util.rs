//! Small helpers around the HTTP surface.

use vstd::prelude::*;
use vstd::string::*;

use rand::Rng;

verus! {

/// An ASCII letter or digit.
pub open spec fn is_ascii_alnum(c: char) -> bool {
    (48 <= c as u32 <= 57) || (65 <= c as u32 <= 90) || (97 <= c as u32 <= 122)
}

/// The `Set-Cookie` value that clears a cookie: an empty value expired
/// at the epoch.
pub fn remove_cookie(name: &str) -> (r: String)
    ensures
        r@ == name@ + "=; expires=Thu, 01 Jan 1970 00:00:00 UTC; path=/"@,
{
    let mut s = name.to_owned();
    s.append("=; expires=Thu, 01 Jan 1970 00:00:00 UTC; path=/");
    s
}

/// Relies on rand's `Alphanumeric` distribution: each sample is one of
/// the 62 ASCII letters and digits, so 30 samples form a 30-character
/// ASCII-alphanumeric string and the UTF-8 conversion cannot fail.
#[verifier::external_body]
pub fn gen_random_string() -> (r: String)
    ensures
        r@.len() == 30,
        forall|i: int| 0 <= i < r@.len() ==> is_ascii_alnum(#[trigger] r@[i]),
{
    let rand_string: Vec<u8> = rand::thread_rng().sample_iter(
        &rand::distributions::Alphanumeric,
    ).take(30).collect();
    String::from_utf8(rand_string).unwrap()
}

} // verus!
