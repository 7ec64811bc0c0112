//! Identifiers that are drawn at random.

use rand::Rng;
use uuid::Uuid;
use vstd::prelude::*;

verus! {

/// Whether a character is a lower-case hexadecimal digit.
pub open spec fn is_hex(c: char) -> bool {
    48 <= c as int <= 57 || 97 <= c as int <= 102
}

/// Whether a character is the first of the variant field: `8`, `9`, `a` or `b`.
pub open spec fn is_variant_digit(c: char) -> bool {
    c == '8' || c == '9' || c == 'a' || c == 'b'
}

/// Whether a text is a random (version 4) UUID in groups of 8, 4, 4, 4 and 12 digits.
pub open spec fn is_uuid(s: Seq<char>) -> bool {
    &&& s.len() == 36
    &&& forall|i: int|
        0 <= i < 36 ==> if i == 8 || i == 13 || i == 18 || i == 23 {
            #[trigger] s[i] == '-'
        } else {
            is_hex(s[i])
        }
    &&& s[14] == '4'
    &&& is_variant_digit(s[19])
}

/// Whether a text is a random (version 4) UUID of 32 digits without groups.
pub open spec fn is_simple_uuid(s: Seq<char>) -> bool {
    &&& s.len() == 32
    &&& forall|i: int| 0 <= i < 32 ==> is_hex(#[trigger] s[i])
    &&& s[12] == '4'
    &&& is_variant_digit(s[16])
}

/// A random UUID.
///
/// Calls `uuid::Uuid::new_v4` and formats its result: a UUID whose version field is four and
/// whose variant field is that of RFC 4122, in lower-case hexadecimal digits with hyphens. The
/// other digits are random, and nothing is said of them.
#[verifier::external_body]
pub(crate) fn random_uuid() -> (id: String)
    ensures
        is_uuid(id@),
{
    Uuid::new_v4().to_string()
}

/// A random UUID without groups.
///
/// Calls `uuid::Uuid::new_v4` and formats its result with `uuid::Uuid::simple`: the same as
/// above without hyphens. The other digits are random, and nothing is said of them.
#[verifier::external_body]
pub(crate) fn random_simple_uuid() -> (id: String)
    ensures
        is_simple_uuid(id@),
{
    Uuid::new_v4().simple().to_string()
}

/// A random number.
///
/// Calls `rand::Rng::random_range` on the thread's generator: the result is at least `low` and
/// less than `high`. Which of these numbers it is, is left to chance.
#[verifier::external_body]
pub(crate) fn random_between(low: u32, high: u32) -> (r: u32)
    requires
        low < high,
    ensures
        low <= r < high,
{
    rand::rng().random_range(low..high)
}

} // verus!
