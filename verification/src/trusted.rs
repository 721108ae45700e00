use vstd::prelude::*;

verus! {

/// What `char::is_alphanumeric` returns for a character: whether it belongs
/// to one of the Unicode letter or number general categories. The category
/// tables are far too large to restate here, so the result only carries a
/// name; it depends on the character alone.
pub uninterp spec fn is_alnum_char(c: char) -> bool;

/// Relies on `char::is_alphanumeric`: membership in the Unicode letter and
/// number general categories, a pure function of the character.
#[verifier::external_body]
pub(crate) fn char_is_alphanumeric(c: char) -> (r: bool)
    ensures
        r == is_alnum_char(c),
{
    c.is_alphanumeric()
}

/// Relies on `std::time::SystemTime::now`; `duration_since(UNIX_EPOCH)` and
/// `as_secs` only convert the result to a plain count of seconds. The value
/// depends on the clock, so nothing is promised of it; a clock that reads
/// before the epoch yields 0.
#[verifier::external_body]
pub(crate) fn unix_now_secs() -> u64 {
    match std::time::SystemTime::now().duration_since(std::time::UNIX_EPOCH) {
        Ok(d) => d.as_secs(),
        Err(_) => 0,
    }
}

} // verus!
