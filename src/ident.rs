//! Fresh identifiers for entities that carry none.

use vstd::prelude::*;

verus! {

/// A lower-case hexadecimal digit.
pub open spec fn is_lower_hex(c: char) -> bool {
    ('0' <= c && c <= '9') || ('a' <= c && c <= 'f')
}

/// The canonical text of a version 4 UUID: 36 characters in groups of
/// 8-4-4-4-12 lower-case hex digits split by hyphens, the version digit `4`
/// at position 14 and the variant digit, one of `8 9 a b`, at position 19.
pub open spec fn is_canonical_v4(s: Seq<char>) -> bool {
    &&& s.len() == 36
    &&& forall|i: int|
        0 <= i < 36 ==> if i == 8 || i == 13 || i == 18 || i == 23 {
            #[trigger] s[i] == '-'
        } else {
            is_lower_hex(s[i])
        }
    &&& s[14] == '4'
    &&& (s[19] == '8' || s[19] == '9' || s[19] == 'a' || s[19] == 'b')
}

/// Relies on `uuid::Uuid::new_v4`, a random UUID whose version and variant
/// bits it sets, and on its `Display` impl, which writes the hyphenated
/// lower-case form.
#[verifier::external_body]
pub(crate) fn fresh_uuid() -> (r: String)
    ensures
        is_canonical_v4(r@),
{
    uuid::Uuid::new_v4().to_string()
}

} // verus!
