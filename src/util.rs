//! Random task ids.
use vstd::prelude::*;
use crate::text::string_of;

verus! {

/// A character that may appear in a generated id: a lower-case ASCII letter
/// or a digit.
pub open spec fn id_char(c: char) -> bool {
    ('a' <= c && c <= 'z') || ('0' <= c && c <= '9')
}

/// A generated id: four id characters.
pub open spec fn is_generated_id(s: Seq<char>) -> bool {
    s.len() == 4 && forall|i: int| 0 <= i < 4 ==> #[trigger] id_char(s[i])
}

pub open spec fn ascii_alphanumeric(b: u8) -> bool {
    (65 <= b && b <= 90) || (97 <= b && b <= 122) || (48 <= b && b <= 57)
}

/// Relies on rand's `Alphanumeric` distribution, sampled with the thread-local
/// generator: each sample is a byte of `A-Z`, `a-z` or `0-9`.
#[verifier::external_body]
fn random_alphanumeric() -> (b: u8)
    ensures
        ascii_alphanumeric(b),
{
    rand::Rng::sample(&mut rand::thread_rng(), rand::distributions::Alphanumeric)
}

/// The id character for an ASCII letter or digit, with letters in lower case.
fn lower_id_char(b: u8) -> (c: char)
    requires
        ascii_alphanumeric(b),
    ensures
        id_char(c),
        c as u32 == (if 65 <= b && b <= 90 { b + 32 } else { b as int }),
{
    let l: u8 = if 65 <= b && b <= 90 { b + 32 } else { b };
    l as char
}

/// A random id of four lower-case letters and digits.
pub fn get_random_id() -> (r: String)
    ensures
        is_generated_id(r@),
{
    let mut v: Vec<char> = Vec::new();
    let mut i: usize = 0;
    while i < 4
        invariant
            i <= 4,
            v@.len() == i,
            forall|k: int| 0 <= k < i ==> #[trigger] id_char(v@[k]),
        decreases 4 - i,
    {
        let b = random_alphanumeric();
        v.push(lower_id_char(b));
        i = i + 1;
    }
    string_of(&v)
}

} // verus!
