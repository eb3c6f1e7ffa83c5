//! The special text markers that an editor excerpt carries.
use vstd::prelude::*;
use vstd::string::*;
use vstd::utf8::*;

use crate::text::lemma_ascii_literal_bytes;

verus! {

/// Marks the position of the user's cursor.
pub const CURSOR_MARKER: &'static str = "<|user_cursor_is_here|>";

/// Marks the start of the region that may be edited.
pub const EDITABLE_REGION_START_MARKER: &'static str = "<|editable_region_start|>";

/// Marks the end of the region that may be edited.
pub const EDITABLE_REGION_END_MARKER: &'static str = "<|editable_region_end|>";

/// The short cursor marker that a language model may answer with.
pub const BARE_CURSOR_MARKER: &'static str = "<|cursor|>";

/// The UTF-8 bytes of the short cursor marker.
pub open spec fn bare_cursor_bytes() -> Seq<u8> {
    BARE_CURSOR_MARKER.spec_bytes()
}

/// The UTF-8 bytes of the cursor marker.
pub open spec fn cursor_bytes() -> Seq<u8> {
    CURSOR_MARKER.spec_bytes()
}

/// The UTF-8 bytes of the editable-region start marker.
pub open spec fn region_start_bytes() -> Seq<u8> {
    EDITABLE_REGION_START_MARKER.spec_bytes()
}

/// The UTF-8 bytes of the editable-region end marker.
pub open spec fn region_end_bytes() -> Seq<u8> {
    EDITABLE_REGION_END_MARKER.spec_bytes()
}

/// A marker's bytes: `len` ASCII bytes that open with `<` and close with `>`.
pub open spec fn is_angle_marker(b: Seq<u8>, len: int) -> bool {
    &&& b.len() == len
    &&& b[0] == 0x3cu8
    &&& b[len - 1] == 0x3eu8
    &&& forall|i: int| 0 <= i < len ==> #[trigger] b[i] <= 0x7fu8
}

/// The cursor marker is 23 ASCII bytes between `<` and `>`.
pub proof fn lemma_cursor_marker()
    ensures
        is_angle_marker(cursor_bytes(), 23),
{
    reveal_strlit("<|user_cursor_is_here|>");
    lemma_ascii_literal_bytes(CURSOR_MARKER);
}

/// The region start marker is 25 ASCII bytes between `<` and `>`.
pub proof fn lemma_region_start_marker()
    ensures
        is_angle_marker(region_start_bytes(), 25),
{
    reveal_strlit("<|editable_region_start|>");
    lemma_ascii_literal_bytes(EDITABLE_REGION_START_MARKER);
}

/// The region end marker is 23 ASCII bytes between `<` and `>`.
pub proof fn lemma_region_end_marker()
    ensures
        is_angle_marker(region_end_bytes(), 23),
{
    reveal_strlit("<|editable_region_end|>");
    lemma_ascii_literal_bytes(EDITABLE_REGION_END_MARKER);
}

/// The short cursor marker is 10 ASCII bytes between `<` and `>`.
pub proof fn lemma_bare_cursor_marker()
    ensures
        is_angle_marker(bare_cursor_bytes(), 10),
{
    reveal_strlit("<|cursor|>");
    lemma_ascii_literal_bytes(BARE_CURSOR_MARKER);
}

/// The byte `<` opens the cursor marker and occurs nowhere else in it.
pub proof fn lemma_cursor_marker_opens_once()
    ensures
        forall|i: int| 1 <= i < 23 ==> #[trigger] cursor_bytes()[i] != 0x3cu8,
{
    reveal_strlit("<|user_cursor_is_here|>");
    lemma_ascii_literal_bytes(CURSOR_MARKER);
    assert(cursor_bytes() =~= seq![
        0x3cu8, 0x7c, 0x75, 0x73, 0x65, 0x72, 0x5f, 0x63, 0x75, 0x72, 0x73, 0x6f, 0x72, 0x5f,
        0x69, 0x73, 0x5f, 0x68, 0x65, 0x72, 0x65, 0x7c, 0x3e,
    ]);
}

/// The byte `<` opens the short cursor marker and occurs nowhere else in it.
pub proof fn lemma_bare_cursor_marker_opens_once()
    ensures
        forall|i: int| 1 <= i < 10 ==> #[trigger] bare_cursor_bytes()[i] != 0x3cu8,
{
    reveal_strlit("<|cursor|>");
    lemma_ascii_literal_bytes(BARE_CURSOR_MARKER);
    assert(bare_cursor_bytes() =~= seq![
        0x3cu8, 0x7c, 0x63, 0x75, 0x72, 0x73, 0x6f, 0x72, 0x7c, 0x3e,
    ]);
}

} // verus!
