//! Time-ordered 128-bit identifiers; the uuid crate generates, parses and prints them.
use vstd::prelude::*;

verus! {

/// The sixteen lower-case hexadecimal digits.
pub open spec fn hex_chars() -> Seq<char> {
    seq!['0', '1', '2', '3', '4', '5', '6', '7', '8', '9', 'a', 'b', 'c', 'd', 'e', 'f']
}

/// Hexadecimal digit `k` of `v`, counting from the most significant of its 32.
pub open spec fn nibble(v: u128, k: int) -> int {
    (v as int / vstd::arithmetic::power2::pow2((4 * (31 - k)) as nat) as int) % 16
}

/// How many hyphens precede position `i` of the hyphenated form.
pub open spec fn hyphens_before(i: int) -> int {
    if i < 9 {
        0
    } else if i < 14 {
        1
    } else if i < 19 {
        2
    } else if i < 24 {
        3
    } else {
        4
    }
}

/// The hyphenated lower-case form `xxxxxxxx-xxxx-xxxx-xxxx-xxxxxxxxxxxx` of an identifier.
pub open spec fn id_text_of(v: u128) -> Seq<char> {
    Seq::new(
        36,
        |i: int|
            if i == 8 || i == 13 || i == 18 || i == 23 {
                '-'
            } else {
                hex_chars()[nibble(v, i - hyphens_before(i))]
            },
    )
}

/// What `uuid::Uuid::try_parse` makes of a text: the identifier's 128-bit value, or nothing.
pub uninterp spec fn parsed_id_of(s: Seq<char>) -> Option<u128>;

/// Relies on uuid::Uuid::now_v7 (with Uuid::as_u128): a fresh version-7 identifier.
/// It depends on the clock and on chance, so nothing is promised of its value.
#[verifier::external_body]
pub(crate) fn new_id() -> (r: u128) {
    uuid::Uuid::now_v7().as_u128()
}

/// Relies on uuid::Uuid::try_parse (with Uuid::as_u128): the result is a function of
/// the text alone, and the hyphenated lower-case form of a value parses back to it.
#[verifier::external_body]
pub(crate) fn parse_id(s: &str) -> (r: Option<u128>)
    ensures
        r == parsed_id_of(s@),
        forall|v: u128| s@ == #[trigger] id_text_of(v) ==> r == Some(v),
{
    uuid::Uuid::try_parse(s).ok().map(|u| u.as_u128())
}

/// Relies on uuid::Uuid::from_u128 and its `Display`, which prints the hyphenated
/// lower-case form of the 128-bit value, most significant digit first.
#[verifier::external_body]
pub(crate) fn id_to_string(id: u128) -> (r: String)
    ensures
        r@ == id_text_of(id),
{
    uuid::Uuid::from_u128(id).to_string()
}

} // verus!
