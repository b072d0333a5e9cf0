use vstd::prelude::*;

verus! {

/// Whether a map key is the scalar value of some character.
pub open spec fn is_label(u: u32) -> bool {
    (u as char) as u32 == u
}

/// A character's scalar value is a label, and gives the character back.
pub proof fn lemma_label(c: char)
    ensures
        is_label(c as u32),
        (c as u32) as char == c,
{
    vstd::utf8::char_u32_cast(c, c as u32);
}

} // verus!
