use vstd::prelude::*;
use vstd::string::StringSliceAdditionalSpecFns;
use vstd::utf8::valid_utf8;

verus! {

/// `std::str::from_utf8`: the bytes as a string slice exactly when they are
/// well-formed UTF-8; the slice then covers the same bytes.
#[verifier::external_body]
pub(crate) fn str_from_utf8<'a>(bytes: &'a [u8]) -> (r: Option<&'a str>)
    ensures
        r is Some <==> valid_utf8(bytes@),
        r is Some ==> r->Some_0.spec_bytes() == bytes@,
{
    std::str::from_utf8(bytes).ok()
}

/// What `str::to_lowercase` makes of a string: its lowercase equivalent,
/// character by character under the Unicode rules.
pub uninterp spec fn lowercase_of(s: Seq<char>) -> Seq<char>;

/// `str::to_lowercase`: the lowercase equivalent of the string.
#[verifier::external_body]
pub(crate) fn to_lowercase(s: &str) -> (r: String)
    ensures
        r@ == lowercase_of(s@),
{
    s.to_lowercase()
}

/// The string as it is compared and indexed: itself where case matters,
/// its lowercase equivalent where it does not.
pub open spec fn with_case(s: Seq<char>, case_sensitive: bool) -> Seq<char> {
    if case_sensitive {
        s
    } else {
        lowercase_of(s)
    }
}

/// The string as it is compared and indexed.
pub fn string_with_case(s: &str, case_sensitive: bool) -> (r: String)
    ensures
        r@ == with_case(s@, case_sensitive),
{
    if case_sensitive {
        s.to_owned()
    } else {
        to_lowercase(s)
    }
}

} // verus!
