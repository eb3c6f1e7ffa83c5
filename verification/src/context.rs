//! Splitting an editor excerpt into the text before and after the cursor.
use vstd::prelude::*;
use vstd::string::*;
use vstd::utf8::*;

use crate::markers::{
    cursor_bytes, lemma_cursor_marker, lemma_region_end_marker, lemma_region_start_marker,
    region_end_bytes, region_start_bytes, CURSOR_MARKER, EDITABLE_REGION_END_MARKER,
    EDITABLE_REGION_START_MARKER,
};
use crate::search::{
    find_bytes, first_match, last_match, lemma_first_match, lemma_last_match, lemma_only_match,
    matches_at, occurs_in, rfind_bytes,
};
use crate::config::{decimal_bytes, decimal_text};
use crate::text::{
    lemma_after_ascii_starts_char, lemma_str_bytes_valid, push_text, starts_char, substring,
};

verus! {

/// Why an excerpt could not be split at its cursor.
#[derive(Debug, Clone, Copy, PartialEq, Eq, Structural)]
pub enum ExtractError {
    /// The excerpt holds no editable-region start marker.
    MissingRegionStart,
    /// The excerpt holds no editable-region end marker.
    MissingRegionEnd,
    /// The editable region's content would start (byte `start`, just past the
    /// first start marker) at or after where it ends (byte `end`, the first end marker).
    EmptyRegion { start: usize, end: usize },
    /// The editable region, of `region_len` bytes, holds no cursor marker.
    MissingCursor { region_len: usize },
}

impl ExtractError {
    /// The bytes of the error's message.
    pub open spec fn message_bytes(self) -> Seq<u8> {
        match self {
            ExtractError::MissingRegionStart => "EDITABLE_REGION_START_MARKER ('".spec_bytes()
                + region_start_bytes() + "') not found".spec_bytes(),
            ExtractError::MissingRegionEnd => "EDITABLE_REGION_END_MARKER ('".spec_bytes()
                + region_end_bytes() + "') not found".spec_bytes(),
            ExtractError::EmptyRegion { start, end } =>
                "Editable region is invalid or empty: start_offset (".spec_bytes() + decimal_bytes(
                start as nat,
            ) + ") >= end_offset (".spec_bytes() + decimal_bytes(end as nat) + ")".spec_bytes(),
            ExtractError::MissingCursor { region_len } => "CURSOR_MARKER ('".spec_bytes()
                + cursor_bytes()
                + "') not found within the isolated editable content slice of length ".spec_bytes()
                + decimal_bytes(region_len as nat),
        }
    }

    /// The error's message, naming the marker that is missing or the offsets
    /// and lengths involved.
    pub fn message(&self) -> (res: String)
        ensures
            encode_utf8(res@) == self.message_bytes(),
    {
        match self {
            ExtractError::MissingRegionStart => {
                let mut m = "EDITABLE_REGION_START_MARKER ('".to_owned();
                push_text(&mut m, EDITABLE_REGION_START_MARKER);
                push_text(&mut m, "') not found");
                m
            },
            ExtractError::MissingRegionEnd => {
                let mut m = "EDITABLE_REGION_END_MARKER ('".to_owned();
                push_text(&mut m, EDITABLE_REGION_END_MARKER);
                push_text(&mut m, "') not found");
                m
            },
            ExtractError::EmptyRegion { start, end } => {
                let mut m = "Editable region is invalid or empty: start_offset (".to_owned();
                let s = decimal_text(*start);
                push_text(&mut m, s.as_str());
                push_text(&mut m, ") >= end_offset (");
                let e = decimal_text(*end);
                push_text(&mut m, e.as_str());
                push_text(&mut m, ")");
                m
            },
            ExtractError::MissingCursor { region_len } => {
                let mut m = "CURSOR_MARKER ('".to_owned();
                push_text(&mut m, CURSOR_MARKER);
                push_text(&mut m, "') not found within the isolated editable content slice of length ");
                let l = decimal_text(*region_len);
                push_text(&mut m, l.as_str());
                m
            },
        }
    }
}

/// The byte offset where the editable region's content starts: just past the
/// first region start marker.
pub open spec fn region_content_start(b: Seq<u8>) -> Option<int> {
    match first_match(b, region_start_bytes()) {
        Some(s) => Some(s + region_start_bytes().len()),
        None => None,
    }
}

/// How an excerpt, given as its UTF-8 bytes, splits at its cursor: the bytes of
/// the editable region before the last cursor marker in it, the bytes after that
/// marker up to the region's end, and the byte offset of that marker in the excerpt.
pub open spec fn spec_extract_context(b: Seq<u8>) -> Result<(Seq<u8>, Seq<u8>, int), ExtractError> {
    match region_content_start(b) {
        None => Err(ExtractError::MissingRegionStart),
        Some(start) => match first_match(b, region_end_bytes()) {
            None => Err(ExtractError::MissingRegionEnd),
            Some(end) => if start >= end {
                Err(ExtractError::EmptyRegion { start: start as usize, end: end as usize })
            } else {
                let region = b.subrange(start, end);
                match last_match(region, cursor_bytes()) {
                    None => Err(ExtractError::MissingCursor { region_len: (end - start) as usize }),
                    Some(c) => Ok(
                        (
                            region.subrange(0, c),
                            region.subrange(c + cursor_bytes().len(), region.len() as int),
                            start + c,
                        ),
                    ),
                }
            },
        },
    }
}

/// Splits `input_excerpt` at the last cursor marker inside its editable region.
///
/// The editable region runs from just past the first region start marker to the
/// first region end marker. On success the result holds the region's text before
/// the cursor marker, its text after the marker, and the marker's byte offset in
/// `input_excerpt`.
pub fn extract_context(input_excerpt: &str) -> (res: Result<(String, String, usize), ExtractError>)
    ensures
        match spec_extract_context(input_excerpt.spec_bytes()) {
            Ok((prefix, suffix, pos)) => res matches Ok((p, s, c)) && encode_utf8(p@) == prefix
                && encode_utf8(s@) == suffix && c == pos,
            Err(e) => res == Err::<(String, String, usize), ExtractError>(e),
        },
{
    let bytes = input_excerpt.as_bytes();
    let n = bytes.len();
    let ghost b = bytes@;
    let start_tag = EDITABLE_REGION_START_MARKER.as_bytes();
    let end_tag = EDITABLE_REGION_END_MARKER.as_bytes();
    let cursor_tag = CURSOR_MARKER.as_bytes();
    proof {
        lemma_region_start_marker();
        lemma_region_end_marker();
        lemma_cursor_marker();
        lemma_first_match(b, start_tag@);
        lemma_first_match(b, end_tag@);
        lemma_str_bytes_valid(input_excerpt);
    }
    let start = match find_bytes(bytes, start_tag) {
        Some(p) => {
            assert(matches_at(b, start_tag@, p as int));
            p + start_tag.len()
        },
        None => {
            return Err(ExtractError::MissingRegionStart);
        },
    };
    let end = match find_bytes(bytes, end_tag) {
        Some(e) => e,
        None => {
            return Err(ExtractError::MissingRegionEnd);
        },
    };
    if start >= end {
        return Err(ExtractError::EmptyRegion { start, end });
    }
    let region = &bytes[start..end];
    let c = match rfind_bytes(region, cursor_tag) {
        Some(c) => c,
        None => {
            return Err(ExtractError::MissingCursor { region_len: end - start });
        },
    };
    proof {
        lemma_last_match(region@, cursor_tag@);
    }
    let pos = start + c;
    let after = pos + cursor_tag.len();
    proof {
        let region_v = region@;
        let s0 = (start - 25) as int;
        // The start marker closes with '>' just before `start`.
        assert(b.subrange(s0, start as int)[24] == b[start - 1]);
        lemma_after_ascii_starts_char(b, start - 1);
        // The cursor marker opens with '<' at `pos` and closes with '>' before `after`.
        assert(region_v.subrange(c as int, c + 23)[0] == region_v[c as int]);
        assert(region_v.subrange(c as int, c + 23)[22] == region_v[c + 22]);
        assert(region_v[c as int] == b[pos as int]);
        assert(region_v[c + 22] == b[pos + 22]);
        assert(starts_char(b, pos as int));
        lemma_after_ascii_starts_char(b, pos + 22);
        // The end marker opens with '<' at `end`.
        assert(b.subrange(end as int, end + 23)[0] == b[end as int]);
        assert(starts_char(b, end as int));
        assert(region_v.subrange(0, c as int) =~= b.subrange(start as int, pos as int));
        assert(region_v.subrange(c + 23, region_v.len() as int) =~= b.subrange(
            after as int,
            end as int,
        ));
    }
    let prefix = substring(input_excerpt, start, pos);
    let suffix = substring(input_excerpt, after, end);
    Ok((prefix, suffix, pos))
}

/// A successful split puts the pieces back together: the excerpt is its text
/// up to and including the region start marker, the text before the cursor,
/// the cursor marker itself (at the reported offset), the text after it, and
/// the region end marker followed by the rest. No cursor marker occurs in the
/// text after the cursor, and the reported offset is past the start marker.
pub proof fn lemma_extract_context_parts(b: Seq<u8>, prefix: Seq<u8>, suffix: Seq<u8>, pos: int)
    requires
        spec_extract_context(b) == Ok::<(Seq<u8>, Seq<u8>, int), ExtractError>((prefix, suffix, pos)),
    ensures
        region_start_bytes().len() <= pos - prefix.len(),
        pos + cursor_bytes().len() + suffix.len() + region_end_bytes().len() <= b.len(),
        b.subrange(pos - prefix.len() - region_start_bytes().len(), pos - prefix.len())
            == region_start_bytes(),
        b.subrange(pos - prefix.len(), pos) == prefix,
        b.subrange(pos, pos + cursor_bytes().len()) == cursor_bytes(),
        b.subrange(pos + cursor_bytes().len(), pos + cursor_bytes().len() + suffix.len()) == suffix,
        b.subrange(
            pos + cursor_bytes().len() + suffix.len(),
            pos + cursor_bytes().len() + suffix.len() + region_end_bytes().len(),
        ) == region_end_bytes(),
        !occurs_in(suffix, cursor_bytes()),
        0 < pos,
{
    lemma_region_start_marker();
    lemma_region_end_marker();
    lemma_cursor_marker();
    lemma_first_match(b, region_start_bytes());
    lemma_first_match(b, region_end_bytes());
    let start = region_content_start(b)->0;
    let end = first_match(b, region_end_bytes())->0;
    let region = b.subrange(start, end);
    let c = last_match(region, cursor_bytes())->0;
    lemma_last_match(region, cursor_bytes());
    assert(prefix =~= b.subrange(start, pos));
    assert(suffix =~= b.subrange(pos + 23, end));
    assert(region.subrange(c, c + 23) =~= b.subrange(pos, pos + 23));
    if occurs_in(suffix, cursor_bytes()) {
        let j = choose|j: int| matches_at(suffix, cursor_bytes(), j);
        assert(suffix.subrange(j, j + 23) =~= region.subrange(c + 23 + j, c + 23 + j + 23));
        assert(matches_at(region, cursor_bytes(), c + 23 + j));
    }
}

/// Completeness of the split: an excerpt made of some text `a`, the region
/// start marker, text `x`, the cursor marker, text `y`, the region end marker
/// and text `z`, holding each marker only there, splits into `x` and `y` with
/// the cursor reported just after `a`, the start marker and `x`; in particular
/// a cursor right at the start of the region (`x` empty) or right before its
/// end (`y` empty) is found.
pub proof fn lemma_extract_context_complete(
    a: Seq<u8>,
    x: Seq<u8>,
    y: Seq<u8>,
    z: Seq<u8>,
)
    requires
        ({
            let b = a + region_start_bytes() + x + cursor_bytes() + y + region_end_bytes() + z;
            &&& forall|j: int| #[trigger] matches_at(b, region_start_bytes(), j) ==> j == a.len()
            &&& forall|j: int| #[trigger] matches_at(b, cursor_bytes(), j) ==> j == a.len()
                + region_start_bytes().len() + x.len()
            &&& forall|j: int| #[trigger] matches_at(b, region_end_bytes(), j) ==> j == a.len()
                + region_start_bytes().len() + x.len() + cursor_bytes().len() + y.len()
        }),
    ensures
        spec_extract_context(a + region_start_bytes() + x + cursor_bytes() + y + region_end_bytes() + z)
            == Ok::<(Seq<u8>, Seq<u8>, int), ExtractError>(
            (x, y, (a.len() + region_start_bytes().len() + x.len()) as int),
        ),
{
    lemma_region_start_marker();
    lemma_region_end_marker();
    lemma_cursor_marker();
    let sb = region_start_bytes();
    let cb = cursor_bytes();
    let eb = region_end_bytes();
    let b = a + sb + x + cb + y + eb + z;
    let s0 = a.len() as int;
    let start = s0 + 25;
    let c = start + x.len();
    let e = c + 23 + y.len();
    assert(matches_at(b, sb, s0)) by {
        assert(b.subrange(s0, s0 + 25) =~= sb);
    }
    assert(matches_at(b, eb, e)) by {
        assert(b.subrange(e, e + 23) =~= eb);
    }
    lemma_only_match(b, sb, s0);
    lemma_only_match(b, eb, e);
    let region = b.subrange(start, e);
    let k0 = x.len() as int;
    assert(region =~= x + cb + y);
    assert(matches_at(region, cb, k0)) by {
        assert(region.subrange(k0, k0 + 23) =~= cb);
    }
    assert forall|k: int| #[trigger] matches_at(region, cb, k) implies k == k0 by {
        assert(region.subrange(k, k + 23) =~= b.subrange(start + k, start + k + 23));
        assert(matches_at(b, cb, start + k));
    }
    lemma_only_match(region, cb, k0);
    assert(region.subrange(0, k0) =~= x);
    assert(region.subrange(k0 + 23, region.len() as int) =~= y);
}

/// The split uses the first region start marker and the first region end
/// marker: no start marker occurs before the one opening the region, and no end
/// marker occurs in the region's text.
pub proof fn lemma_extract_context_first_markers(b: Seq<u8>, prefix: Seq<u8>, suffix: Seq<u8>, pos: int)
    requires
        spec_extract_context(b) == Ok::<(Seq<u8>, Seq<u8>, int), ExtractError>((prefix, suffix, pos)),
    ensures
        forall|j: int|
            j < pos - prefix.len() - region_start_bytes().len() ==> !#[trigger] matches_at(
                b,
                region_start_bytes(),
                j,
            ),
        !occurs_in(prefix, region_end_bytes()),
        !occurs_in(suffix, region_end_bytes()),
{
    lemma_region_start_marker();
    lemma_region_end_marker();
    lemma_cursor_marker();
    lemma_first_match(b, region_start_bytes());
    lemma_first_match(b, region_end_bytes());
    lemma_extract_context_parts(b, prefix, suffix, pos);
    let start = pos - prefix.len();
    let end = pos + 23 + suffix.len();
    let st = region_content_start(b)->0;
    let e = first_match(b, region_end_bytes())->0;
    lemma_last_match(b.subrange(st, e), cursor_bytes());
    assert(first_match(b, region_end_bytes()) == Some(end));
    if occurs_in(prefix, region_end_bytes()) {
        let k = choose|k: int| matches_at(prefix, region_end_bytes(), k);
        assert(prefix.subrange(k, k + 23) =~= b.subrange(start + k, start + k + 23));
        assert(matches_at(b, region_end_bytes(), start + k));
    }
    if occurs_in(suffix, region_end_bytes()) {
        let k = choose|k: int| matches_at(suffix, region_end_bytes(), k);
        assert(suffix.subrange(k, k + 23) =~= b.subrange(pos + 23 + k, pos + 23 + k + 23));
        assert(matches_at(b, region_end_bytes(), pos + 23 + k));
    }
}

/// When each error comes: no region start marker; a start marker but no end
/// marker; the first end marker not after the first start marker's end; or no
/// cursor marker between them.
pub proof fn lemma_extract_context_errors(b: Seq<u8>)
    requires
        b.len() <= usize::MAX,
    ensures
        (spec_extract_context(b) == Err::<(Seq<u8>, Seq<u8>, int), ExtractError>(
            ExtractError::MissingRegionStart,
        )) <==> !occurs_in(b, region_start_bytes()),
        (spec_extract_context(b) == Err::<(Seq<u8>, Seq<u8>, int), ExtractError>(
            ExtractError::MissingRegionEnd,
        )) <==> (occurs_in(b, region_start_bytes()) && !occurs_in(b, region_end_bytes())),
        forall|start: usize, end: usize|
            #[trigger] spec_extract_context(b) == Err::<(Seq<u8>, Seq<u8>, int), ExtractError>(
                ExtractError::EmptyRegion { start, end },
            ) ==> {
                &&& matches_at(b, region_start_bytes(), start - region_start_bytes().len())
                &&& matches_at(b, region_end_bytes(), end as int)
                &&& end <= start
            },
        spec_extract_context(b) is Err && (spec_extract_context(b)->Err_0 is MissingCursor)
            ==> !occurs_in(
            b.subrange(region_content_start(b)->0, first_match(b, region_end_bytes())->0),
            cursor_bytes(),
        ),
{
    lemma_first_match(b, region_start_bytes());
    lemma_first_match(b, region_end_bytes());
    lemma_region_start_marker();
    lemma_region_end_marker();
    if let Some(s) = first_match(b, region_start_bytes()) {
        if let Some(e) = first_match(b, region_end_bytes()) {
            if s + 25 < e {
                lemma_last_match(b.subrange(s + 25, e), cursor_bytes());
            }
        }
    }
}

} // verus!
