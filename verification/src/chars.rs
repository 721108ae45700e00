use vstd::prelude::*;

verus! {

/// The Unicode `White_Space` code points: the characters that line trimming
/// and whitespace collapsing treat as blank.
pub open spec fn is_ws_char(c: char) -> bool {
    let u = c as u32;
    (9 <= u && u <= 13) || u == 32 || u == 0x85 || u == 0xA0 || u == 0x1680
        || (0x2000 <= u && u <= 0x200A) || u == 0x2028 || u == 0x2029
        || u == 0x202F || u == 0x205F || u == 0x3000
}

/// Decides `is_ws_char`.
pub fn is_ws(c: char) -> (r: bool)
    ensures
        r == is_ws_char(c),
{
    let u = c as u32;
    (9 <= u && u <= 13) || u == 32 || u == 0x85 || u == 0xA0 || u == 0x1680
        || (0x2000 <= u && u <= 0x200A) || u == 0x2028 || u == 0x2029
        || u == 0x202F || u == 0x205F || u == 0x3000
}

} // verus!
