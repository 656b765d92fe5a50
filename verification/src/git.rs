//! What the library takes from gix: validation of reference names and the
//! decoding of object ids, with the contracts that gix's source shows.

use vstd::prelude::*;

verus! {

/// What gix answers for `name` as a complete reference name: nothing when
/// it accepts it, else the alternate `Debug` rendering (`{:#?}`) of the error
/// that refuses it. gix's rules (`gix_validate::reference::name`): not
/// empty, no leading or trailing `/`, no `//`, no `..`, no component that
/// starts with `.` or ends with `.lock`, no trailing `.`, no control bytes,
/// spaces or any of `~^:?*[\`, no `@{`, not `@`, and all uppercase or `_`
/// when it has no `/`.
pub uninterp spec fn ref_name_refusal(name: Seq<char>) -> Option<Seq<char>>;

/// gix accepts `name` as a complete reference name.
pub open spec fn full_ref_name_valid(name: Seq<char>) -> bool {
    ref_name_refusal(name) is None
}

/// `gix::refs::FullName::try_from(&str)`: validates `name` as a complete
/// reference name. The contract claims that the verdict, and the `{:#?}`
/// rendering of a refusal, depend on the name alone, under the name
/// `ref_name_refusal`; the validated name is dropped.
#[verifier::external_body]
pub(crate) fn check_full_ref_name(name: &str) -> (checked: Result<(), String>)
    ensures
        match checked {
            Ok(()) => ref_name_refusal(name@) is None,
            Err(detail) => ref_name_refusal(name@) == Some(detail@),
        },
{
    match gix::refs::FullName::try_from(name) {
        Ok(_) => Ok(()),
        Err(error) => Err(format!("{error:#?}")),
    }
}

/// An ASCII hexadecimal digit, in either case.
pub open spec fn is_hex_digit(c: char) -> bool {
    ('0' <= c && c <= '9') || ('a' <= c && c <= 'f') || ('A' <= c && c <= 'F')
}

/// The value of a hexadecimal digit.
pub open spec fn hex_value(c: char) -> int {
    if '0' <= c && c <= '9' {
        c as int - '0' as int
    } else if 'a' <= c && c <= 'f' {
        c as int - 'a' as int + 10
    } else {
        c as int - 'A' as int + 10
    }
}

/// A SHA-1 object id in hexadecimal: forty hexadecimal digits.
pub open spec fn sha1_hex(text: Seq<char>) -> bool {
    text.len() == 40 && forall|i: int| 0 <= i < 40 ==> is_hex_digit(#[trigger] text[i])
}

/// The bytes that pairs of hexadecimal digits encode, high digit first.
pub open spec fn hex_decoded(text: Seq<char>) -> Seq<u8> {
    Seq::new(
        (text.len() / 2) as nat,
        |i: int| (hex_value(text[2 * i]) * 16 + hex_value(text[2 * i + 1])) as u8,
    )
}

/// The alternate `Debug` rendering (`{:#?}`) of the error with which
/// `gix::ObjectId::from_hex` refuses `text`.
pub uninterp spec fn object_hex_refusal(text: Seq<char>) -> Seq<char>;

/// `gix::ObjectId::from_hex`, in this build (SHA-1 only, gix's default):
/// it accepts exactly forty hexadecimal digits of either case and decodes
/// them pairwise into the twenty bytes of the id, which are handed back; a
/// refusal is handed back as the `{:#?}` rendering of gix's error, which
/// the contract claims depends on the text alone (`object_hex_refusal`).
#[verifier::external_body]
pub(crate) fn decode_object_hex(text: &str) -> (decoded: Result<Vec<u8>, String>)
    ensures
        decoded is Ok <==> sha1_hex(text@),
        decoded matches Ok(bytes) ==> bytes@ == hex_decoded(text@),
        decoded matches Err(detail) ==> detail@ == object_hex_refusal(text@),
{
    match gix::ObjectId::from_hex(text.as_bytes()) {
        Ok(id) => Ok(id.as_bytes().to_vec()),
        Err(error) => Err(format!("{error:#?}")),
    }
}

} // verus!
