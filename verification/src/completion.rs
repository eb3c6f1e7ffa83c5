//! Building the output excerpt: cleaning a completion, the static fallback
//! completions, and writing a completion in place of the cursor marker.
use vstd::prelude::*;
use vstd::string::*;
use vstd::utf8::*;

use crate::context::{
    extract_context, lemma_extract_context_parts, spec_extract_context, ExtractError,
};
use crate::markers::{
    bare_cursor_bytes, cursor_bytes, is_angle_marker, lemma_bare_cursor_marker,
    lemma_bare_cursor_marker_opens_once, lemma_cursor_marker, lemma_cursor_marker_opens_once,
    BARE_CURSOR_MARKER, CURSOR_MARKER,
};
use crate::search::{contains_bytes, find_bytes, first_match, lemma_first_match, matches_at, occurs_in};
use crate::text::{
    lemma_after_ascii_starts_char, lemma_ascii_literal_bytes, lemma_str_bytes_valid, push_text, split_text, starts_char,
};

verus! {

/// Static completion for JavaScript-looking excerpts.
pub const FALLBACK_JS: &'static str = "// Generated JS code\nconsole.log(\"Processing data...\");\nconst result = {};\nreturn result;";

/// Static completion for Python-looking excerpts.
pub const FALLBACK_PY: &'static str = "# Generated Python code\nprint(\"Processing data...\")\nresult = {}\nreturn result";

/// Static completion for Rust-looking excerpts.
pub const FALLBACK_RS: &'static str = "// Generated Rust code\nprintln!(\"Processing data...\");\nlet result = String::from(\"done\");\nresult";

/// Static completion for any other excerpt.
pub const FALLBACK_TXT: &'static str = "// Generated code\n// Replace with your implementation";

/// The completion written when a completion is forced.
pub const FORCED_COMPLETION: &'static str = "    // Generated fields\n    server_name: String,\n    version: String,\n    initialized_at: std::time::SystemTime,\n    \n    // Configuration\n    max_connections: usize,\n    timeout_seconds: u64,";

/// The completion written by the test endpoint.
pub const TEST_COMPLETION: &'static str = "// Test completion inserted\nconsole.log(\"This is a test completion\");\n// End of test completion";

/// The complete excerpt answered when no excerpt could be completed.
pub const SAMPLE_OUTPUT_EXCERPT: &'static str = "<|editable_region_start|>\n// Generated function example\nfunction processData(input) {\n  // Validate input\n  if (!input) return { error: \"Input is required\" };\n  \n  // Process the data\n  const result = {\n    processed: true,\n    timestamp: new Date().toISOString(),\n    data: input\n  };\n  \n  console.log(\"Data processed successfully\");\n  return result;\n}\n<|editable_region_end|>";

/// The language that an excerpt appears to be written in.
#[derive(Debug, Clone, Copy, PartialEq, Eq, Structural)]
pub enum FallbackLanguage {
    JavaScript,
    Python,
    Rust,
    Plain,
}

/// The language of an excerpt, given as its UTF-8 bytes: the first of
/// JavaScript, Python and Rust one of whose hints occurs in it, else plain text.
pub open spec fn spec_detect_language(b: Seq<u8>) -> FallbackLanguage {
    if occurs_in(b, ".js".spec_bytes()) || occurs_in(b, "function".spec_bytes()) || occurs_in(
        b,
        "const".spec_bytes(),
    ) {
        FallbackLanguage::JavaScript
    } else if occurs_in(b, ".py".spec_bytes()) || occurs_in(b, "def ".spec_bytes()) || occurs_in(
        b,
        "import ".spec_bytes(),
    ) {
        FallbackLanguage::Python
    } else if occurs_in(b, ".rs".spec_bytes()) || occurs_in(b, "fn ".spec_bytes()) || occurs_in(
        b,
        "pub ".spec_bytes(),
    ) || occurs_in(b, "struct ".spec_bytes()) {
        FallbackLanguage::Rust
    } else {
        FallbackLanguage::Plain
    }
}

/// The static completion for a language.
pub open spec fn fallback_text(lang: FallbackLanguage) -> &'static str {
    match lang {
        FallbackLanguage::JavaScript => FALLBACK_JS,
        FallbackLanguage::Python => FALLBACK_PY,
        FallbackLanguage::Rust => FALLBACK_RS,
        FallbackLanguage::Plain => FALLBACK_TXT,
    }
}

/// Guesses the language of `input_excerpt` from the hints it contains.
pub fn detect_language(input_excerpt: &str) -> (res: FallbackLanguage)
    ensures
        res == spec_detect_language(input_excerpt.spec_bytes()),
{
    let b = input_excerpt.as_bytes();
    if contains_bytes(b, ".js".as_bytes()) || contains_bytes(b, "function".as_bytes())
        || contains_bytes(b, "const".as_bytes()) {
        FallbackLanguage::JavaScript
    } else if contains_bytes(b, ".py".as_bytes()) || contains_bytes(b, "def ".as_bytes())
        || contains_bytes(b, "import ".as_bytes()) {
        FallbackLanguage::Python
    } else if contains_bytes(b, ".rs".as_bytes()) || contains_bytes(b, "fn ".as_bytes())
        || contains_bytes(b, "pub ".as_bytes()) || contains_bytes(b, "struct ".as_bytes()) {
        FallbackLanguage::Rust
    } else {
        FallbackLanguage::Plain
    }
}

/// The static completion for the language that `input_excerpt` appears to be written in.
pub fn get_fallback_completion(input_excerpt: &str) -> (res: String)
    ensures
        res@ == fallback_text(spec_detect_language(input_excerpt.spec_bytes()))@,
{
    match detect_language(input_excerpt) {
        FallbackLanguage::JavaScript => FALLBACK_JS.to_owned(),
        FallbackLanguage::Python => FALLBACK_PY.to_owned(),
        FallbackLanguage::Rust => FALLBACK_RS.to_owned(),
        FallbackLanguage::Plain => FALLBACK_TXT.to_owned(),
    }
}

/// `b` with every occurrence of the marker `m` taken out, scanning from the
/// left and removing each occurrence found (as `str::replace` with an empty
/// replacement does).
pub open spec fn without_marker(b: Seq<u8>, m: Seq<u8>) -> Seq<u8>
    decreases b.len(),
{
    if m.len() == 0 {
        b
    } else {
        match first_match(b, m) {
            None => b,
            Some(k) => {
                proof {
                    lemma_first_match(b, m);
                }
                b.subrange(0, k) + without_marker(b.subrange(k + m.len(), b.len() as int), m)
            },
        }
    }
}

/// A completion's bytes with its cursor markers taken out: first every
/// `<|user_cursor_is_here|>`, then every `<|cursor|>`.
pub open spec fn without_cursor_markers(b: Seq<u8>) -> Seq<u8> {
    without_marker(without_marker(b, cursor_bytes()), bare_cursor_bytes())
}

/// A marker starts at byte `k` of the UTF-8 text `b`, so both ends of the
/// marker are character starts.
proof fn lemma_marker_ends_start_chars(b: Seq<u8>, m: Seq<u8>, k: int)
    requires
        valid_utf8(b),
        m.len() >= 1,
        is_angle_marker(m, m.len() as int),
        matches_at(b, m, k),
    ensures
        starts_char(b, k),
        starts_char(b, k + m.len()),
{
    let n = m.len() as int;
    assert(b.subrange(k, k + n)[0] == b[k]);
    assert(b.subrange(k, k + n)[n - 1] == b[k + n - 1]);
    lemma_after_ascii_starts_char(b, k + n - 1);
}

/// `text` with every occurrence of `marker` taken out, left to right.
pub fn strip_marker(text: &str, marker: &str) -> (res: String)
    requires
        marker.spec_bytes().len() >= 1,
        is_angle_marker(marker.spec_bytes(), marker.spec_bytes().len() as int),
    ensures
        encode_utf8(res@) == without_marker(text.spec_bytes(), marker.spec_bytes()),
{
    let tag = marker.as_bytes();
    let ghost m = tag@;
    let mut out = String::new();
    let mut rest: &str = text;
    proof {
        assert(encode_utf8(out@) =~= Seq::<u8>::empty());
        assert(encode_utf8(out@) + without_marker(rest.spec_bytes(), m) =~= without_marker(
            rest.spec_bytes(),
            m,
        ));
    }
    loop
        invariant
            m == marker.spec_bytes(),
            tag@ == m,
            m.len() >= 1,
            is_angle_marker(m, m.len() as int),
            encode_utf8(out@) + without_marker(rest.spec_bytes(), m) == without_marker(
                text.spec_bytes(),
                m,
            ),
        decreases rest.spec_bytes().len(),
    {
        let bytes = rest.as_bytes();
        let n = bytes.len();
        proof {
            lemma_first_match(bytes@, m);
            lemma_str_bytes_valid(rest);
        }
        match find_bytes(bytes, tag) {
            None => {
                push_text(&mut out, rest);
                return out;
            },
            Some(k) => {
                let ghost old_out = out@;
                let ghost rb = rest.spec_bytes();
                proof {
                    lemma_marker_ends_start_chars(rb, m, k as int);
                }
                let (head, _) = split_text(rest, k);
                push_text(&mut out, head);
                let (_, tail) = split_text(rest, k + tag.len());
                proof {
                    let w = without_marker(tail.spec_bytes(), m);
                    assert(without_marker(rb, m) == head.spec_bytes() + w);
                    assert(encode_utf8(old_out) + (head.spec_bytes() + w) =~= (encode_utf8(old_out)
                        + head.spec_bytes()) + w);
                }
                rest = tail;
            },
        }
    }
}

/// `completion` with its cursor markers taken out: first every
/// `<|user_cursor_is_here|>`, then every `<|cursor|>`.
pub fn strip_cursor_markers(completion: &str) -> (res: String)
    ensures
        encode_utf8(res@) == without_cursor_markers(completion.spec_bytes()),
{
    proof {
        lemma_cursor_marker();
        lemma_bare_cursor_marker();
    }
    let once = strip_marker(completion, CURSOR_MARKER);
    strip_marker(once.as_str(), BARE_CURSOR_MARKER)
}

/// The bytes of `b` with `ins` written in place of the cursor marker that
/// starts at byte `pos`; where the marker would run past the end of `b`, the
/// text from `pos` on is replaced by `ins`.
pub open spec fn spliced(b: Seq<u8>, pos: int, ins: Seq<u8>) -> Seq<u8> {
    if pos + cursor_bytes().len() <= b.len() {
        b.subrange(0, pos) + ins + b.subrange(pos + cursor_bytes().len(), b.len() as int)
    } else {
        b.subrange(0, pos) + ins
    }
}

/// Writes `insertion` into `input_excerpt` in place of the cursor marker at
/// byte `cursor_pos`.
pub fn splice_at_cursor(input_excerpt: &str, cursor_pos: usize, insertion: &str) -> (res: String)
    requires
        starts_char(input_excerpt.spec_bytes(), cursor_pos as int),
        cursor_pos + cursor_bytes().len() <= input_excerpt.spec_bytes().len() ==> starts_char(
            input_excerpt.spec_bytes(),
            cursor_pos + cursor_bytes().len(),
        ),
    ensures
        encode_utf8(res@) == spliced(input_excerpt.spec_bytes(), cursor_pos as int, insertion.spec_bytes()),
{
    let ghost b = input_excerpt.spec_bytes();
    let n = input_excerpt.as_bytes().len();
    let marker_len = CURSOR_MARKER.as_bytes().len();
    proof {
        lemma_cursor_marker();
    }
    let (head, _) = split_text(input_excerpt, cursor_pos);
    let mut out = head.to_owned();
    push_text(&mut out, insertion);
    if cursor_pos <= n && marker_len <= n - cursor_pos {
        let (_, tail) = split_text(input_excerpt, cursor_pos + marker_len);
        push_text(&mut out, tail);
    }
    out
}

/// Writes the static completion for the excerpt's language in place of its
/// cursor marker; `None` when the excerpt cannot be split at its cursor.
pub fn fallback_output(input_excerpt: &str) -> (res: Option<String>)
    ensures
        match spec_extract_context(input_excerpt.spec_bytes()) {
            Ok((_, _, pos)) => res matches Some(out) && encode_utf8(out@) == spliced(
                input_excerpt.spec_bytes(),
                pos,
                fallback_text(spec_detect_language(input_excerpt.spec_bytes())).spec_bytes(),
            ),
            Err(_) => res is None,
        },
{
    match extract_context(input_excerpt) {
        Ok((_, _, cursor_pos)) => {
            let fallback_code = get_fallback_completion(input_excerpt);
            proof {
                let (p, s, pos) = spec_extract_context(input_excerpt.spec_bytes())->Ok_0;
                lemma_extract_context_parts(input_excerpt.spec_bytes(), p, s, pos);
                lemma_str_bytes_valid(input_excerpt);
                lemma_cursor_marker();
                lemma_marker_ends_start_chars(input_excerpt.spec_bytes(), cursor_bytes(), pos);
            }
            Some(splice_at_cursor(input_excerpt, cursor_pos, fallback_code.as_str()))
        },
        Err(_) => None,
    }
}

/// What is written at the cursor once the language model has answered with
/// `completion` (its bytes): the forced completion when one is forced; the
/// excerpt's static completion when the answer was not empty but held nothing
/// besides cursor markers (`<|user_cursor_is_here|>` or `<|cursor|>`);
/// otherwise the answer with its cursor markers taken out.
pub open spec fn chosen_insertion(input: Seq<u8>, completion: Seq<u8>, force_completion: bool) -> Seq<u8> {
    let clean = without_cursor_markers(completion);
    if force_completion {
        FORCED_COMPLETION.spec_bytes()
    } else if completion.len() > 0 && clean.len() == 0 {
        fallback_text(spec_detect_language(input)).spec_bytes()
    } else {
        clean
    }
}

/// The output excerpt once the language model has answered with `completion`:
/// the chosen insertion written in place of the cursor marker at `cursor_pos`.
pub fn complete_excerpt(
    input_excerpt: &str,
    cursor_pos: usize,
    completion: &str,
    force_completion: bool,
) -> (res: String)
    requires
        starts_char(input_excerpt.spec_bytes(), cursor_pos as int),
        cursor_pos + cursor_bytes().len() <= input_excerpt.spec_bytes().len() ==> starts_char(
            input_excerpt.spec_bytes(),
            cursor_pos + cursor_bytes().len(),
        ),
    ensures
        encode_utf8(res@) == spliced(
            input_excerpt.spec_bytes(),
            cursor_pos as int,
            chosen_insertion(input_excerpt.spec_bytes(), completion.spec_bytes(), force_completion),
        ),
{
    let insertion = if force_completion {
        FORCED_COMPLETION.to_owned()
    } else {
        let clean = strip_cursor_markers(completion);
        if completion.as_bytes().len() > 0 && clean.as_str().as_bytes().len() == 0 {
            get_fallback_completion(input_excerpt)
        } else {
            clean
        }
    };
    splice_at_cursor(input_excerpt, cursor_pos, insertion.as_str())
}

/// Splits `input_excerpt` at its cursor and writes there what the language
/// model's answer `completion` calls for (see `chosen_insertion`); the split's
/// error when the excerpt cannot be split.
pub fn complete_at_cursor(input_excerpt: &str, completion: &str, force_completion: bool) -> (res: Result<String, ExtractError>)
    ensures
        match spec_extract_context(input_excerpt.spec_bytes()) {
            Ok((_, _, pos)) => res matches Ok(out) && encode_utf8(out@) == spliced(
                input_excerpt.spec_bytes(),
                pos,
                chosen_insertion(input_excerpt.spec_bytes(), completion.spec_bytes(), force_completion),
            ),
            Err(e) => res == Err::<String, ExtractError>(e),
        },
{
    match extract_context(input_excerpt) {
        Ok((_, _, cursor_pos)) => {
            proof {
                let (p, s, pos) = spec_extract_context(input_excerpt.spec_bytes())->Ok_0;
                lemma_extract_context_parts(input_excerpt.spec_bytes(), p, s, pos);
                lemma_str_bytes_valid(input_excerpt);
                lemma_cursor_marker();
                lemma_marker_ends_start_chars(input_excerpt.spec_bytes(), cursor_bytes(), pos);
            }
            Ok(complete_excerpt(input_excerpt, cursor_pos, completion, force_completion))
        },
        Err(e) => Err(e),
    }
}

/// What the test endpoint writes for an optional excerpt: the test completion
/// in place of the cursor marker, when the excerpt is present, holds a cursor
/// marker and can be split at its cursor; otherwise `None`.
pub fn test_completion_output(input_excerpt: Option<&str>) -> (res: Option<String>)
    ensures
        match input_excerpt {
            Some(text) => match spec_extract_context(text.spec_bytes()) {
                Ok((_, _, pos)) => res matches Some(out) && encode_utf8(out@) == spliced(
                    text.spec_bytes(),
                    pos,
                    TEST_COMPLETION.spec_bytes(),
                ),
                Err(_) => res is None,
            },
            None => res is None,
        },
{
    match input_excerpt {
        Some(text) => {
            if contains_bytes(text.as_bytes(), CURSOR_MARKER.as_bytes()) {
                match extract_context(text) {
                    Ok((_, _, cursor_pos)) => {
                        proof {
                            let (p, s, pos) = spec_extract_context(text.spec_bytes())->Ok_0;
                            lemma_extract_context_parts(text.spec_bytes(), p, s, pos);
                            lemma_str_bytes_valid(text);
                            lemma_cursor_marker();
                            lemma_marker_ends_start_chars(text.spec_bytes(), cursor_bytes(), pos);
                        }
                        Some(splice_at_cursor(text, cursor_pos, TEST_COMPLETION))
                    },
                    Err(_) => None,
                }
            } else {
                proof {
                    if spec_extract_context(text.spec_bytes()) is Ok {
                        let (p, s, pos) = spec_extract_context(text.spec_bytes())->Ok_0;
                        lemma_extract_context_parts(text.spec_bytes(), p, s, pos);
                        assert(matches_at(text.spec_bytes(), cursor_bytes(), pos));
                    }
                }
                None
            }
        },
        None => None,
    }
}

/// The complete excerpt answered when no excerpt could be completed.
pub fn sample_output_excerpt() -> (res: String)
    ensures
        res@ == SAMPLE_OUTPUT_EXCERPT@,
{
    SAMPLE_OUTPUT_EXCERPT.to_owned()
}

/// Writing the cursor marker back at the offset that a successful split
/// reports gives back the excerpt.
pub proof fn lemma_splice_marker_restores(b: Seq<u8>, prefix: Seq<u8>, suffix: Seq<u8>, pos: int)
    requires
        spec_extract_context(b) == Ok::<(Seq<u8>, Seq<u8>, int), crate::context::ExtractError>(
            (prefix, suffix, pos),
        ),
    ensures
        spliced(b, pos, cursor_bytes()) == b,
{
    lemma_extract_context_parts(b, prefix, suffix, pos);
    lemma_cursor_marker();
    assert(b.subrange(0, pos) + cursor_bytes() + b.subrange(pos + 23, b.len() as int) =~= b);
}

/// Taking out a marker that does not occur leaves the text unchanged.
pub proof fn lemma_absent_marker_unchanged(b: Seq<u8>, m: Seq<u8>)
    requires
        !occurs_in(b, m),
    ensures
        without_marker(b, m) == b,
{
    lemma_first_match(b, m);
}

/// A completion that holds neither cursor marker is kept unchanged.
pub proof fn lemma_marker_free_unchanged(b: Seq<u8>)
    requires
        !occurs_in(b, cursor_bytes()),
        !occurs_in(b, bare_cursor_bytes()),
    ensures
        without_cursor_markers(b) == b,
{
    lemma_absent_marker_unchanged(b, cursor_bytes());
    lemma_absent_marker_unchanged(b, bare_cursor_bytes());
}

/// Taking a marker out never lengthens a text.
pub proof fn lemma_without_marker_shorter(b: Seq<u8>, m: Seq<u8>)
    ensures
        without_marker(b, m).len() <= b.len(),
    decreases b.len(),
{
    if m.len() > 0 {
        lemma_first_match(b, m);
        match first_match(b, m) {
            None => {},
            Some(k) => {
                lemma_without_marker_shorter(b.subrange(k + m.len(), b.len() as int), m);
            },
        }
    }
}

/// Unless a completion is forced, an answer that holds neither cursor marker
/// is what gets written at the cursor, whatever the excerpt.
pub proof fn lemma_marker_free_answer_written(input: Seq<u8>, completion: Seq<u8>)
    requires
        !occurs_in(completion, cursor_bytes()),
        !occurs_in(completion, bare_cursor_bytes()),
    ensures
        chosen_insertion(input, completion, false) == completion,
{
    lemma_marker_free_unchanged(completion);
}

/// Unless a completion is forced, an answer that is nothing but cursor markers
/// is replaced by the excerpt's static completion.
pub proof fn lemma_marker_only_answer_falls_back(input: Seq<u8>, completion: Seq<u8>)
    requires
        completion.len() > 0,
        without_cursor_markers(completion).len() == 0,
    ensures
        chosen_insertion(input, completion, false) == fallback_text(spec_detect_language(input)).spec_bytes(),
{
}

/// Where a marker `m` opens with a byte found nowhere else in it, its
/// occurrences in `a + m + t` (with no `m` in `t`) are those in `a` and the
/// one just after `a`.
proof fn lemma_marker_occurrences_around(a: Seq<u8>, m: Seq<u8>, t: Seq<u8>, j: int)
    requires
        m.len() >= 1,
        forall|i: int| 1 <= i < m.len() ==> #[trigger] m[i] != m[0],
        !occurs_in(t, m),
        matches_at(a + m + t, m, j),
    ensures
        j == a.len() || (j + m.len() <= a.len() && matches_at(a, m, j)),
{
    let b = a + m + t;
    let n = m.len() as int;
    let la = a.len() as int;
    if j + n <= la {
        assert(b.subrange(j, j + n) =~= a.subrange(j, j + n));
    } else if j < la {
        assert(b.subrange(j, j + n)[la - j] == b[la]);
        assert(b[la] == m[0]);
        assert(m[la - j] == m[0]);
    } else if j < la + n {
        if j > la {
            assert(b.subrange(j, j + n)[0] == b[j]);
            assert(b[j] == m[j - la]);
            assert(m[j - la] == m[0]);
        }
    } else {
        let jt = j - la - n;
        assert(t.subrange(jt, jt + n) =~= b.subrange(j, j + n));
        assert(matches_at(t, m, jt));
    }
}

/// Taking a marker out keeps every byte outside its occurrences: for a marker
/// `m` that opens with a byte found nowhere else in it, and a text `t` without
/// `m`, taking `m` out of `a + m + t` gives `a` with `m` taken out, then `t`.
pub proof fn lemma_without_marker_keeps_text(a: Seq<u8>, m: Seq<u8>, t: Seq<u8>)
    requires
        m.len() >= 1,
        forall|i: int| 1 <= i < m.len() ==> #[trigger] m[i] != m[0],
        !occurs_in(t, m),
    ensures
        without_marker(a + m + t, m) == without_marker(a, m) + t,
    decreases a.len(),
{
    let b = a + m + t;
    let n = m.len() as int;
    let la = a.len() as int;
    assert(matches_at(b, m, la)) by {
        assert(b.subrange(la, la + n) =~= m);
    }
    lemma_first_match(b, m);
    lemma_first_match(a, m);
    lemma_first_match(t, m);
    let k = first_match(b, m)->0;
    lemma_marker_occurrences_around(a, m, t, k);
    match first_match(a, m) {
        None => {
            assert(k == la);
            assert(b.subrange(0, la) =~= a);
            assert(b.subrange(la + n, b.len() as int) =~= t);
            assert(without_marker(t, m) == t);
            assert(without_marker(a, m) == a);
            assert(without_marker(b, m) == b.subrange(0, la) + without_marker(
                b.subrange(la + n, b.len() as int),
                m,
            ));
        },
        Some(ka) => {
            assert(matches_at(b, m, ka)) by {
                assert(b.subrange(ka, ka + n) =~= a.subrange(ka, ka + n));
            }
            assert(k == ka);
            let rest = a.subrange(ka + n, la);
            lemma_without_marker_keeps_text(rest, m, t);
            assert(b.subrange(0, k) =~= a.subrange(0, k));
            assert(b.subrange(k + n, b.len() as int) =~= rest + m + t);
            assert(without_marker(a, m) == a.subrange(0, ka) + without_marker(rest, m));
            assert(without_marker(b, m) == b.subrange(0, k) + without_marker(
                b.subrange(k + n, b.len() as int),
                m,
            ));
            assert(a.subrange(0, ka) + without_marker(rest, m) + t =~= a.subrange(0, ka) + (
            without_marker(rest, m) + t));
        },
    }
}

/// Taking the cursor markers out of an answer that opens with a cursor marker
/// and holds neither marker afterwards leaves the rest of the answer whole.
pub proof fn lemma_leading_cursor_marker_removed(t: Seq<u8>)
    requires
        !occurs_in(t, cursor_bytes()),
        !occurs_in(t, bare_cursor_bytes()),
    ensures
        without_cursor_markers(cursor_bytes() + t) == t,
        without_cursor_markers(bare_cursor_bytes() + t) == t,
{
    lemma_cursor_marker();
    lemma_bare_cursor_marker();
    lemma_cursor_marker_opens_once();
    lemma_bare_cursor_marker_opens_once();
    let e = Seq::<u8>::empty();
    lemma_absent_marker_unchanged(e, cursor_bytes());
    lemma_absent_marker_unchanged(e, bare_cursor_bytes());
    lemma_without_marker_keeps_text(e, cursor_bytes(), t);
    assert(e + cursor_bytes() + t =~= cursor_bytes() + t);
    assert(e + t =~= t);
    lemma_absent_marker_unchanged(t, bare_cursor_bytes());
    lemma_without_marker_keeps_text(e, bare_cursor_bytes(), t);
    assert(e + bare_cursor_bytes() + t =~= bare_cursor_bytes() + t);
    // The cursor marker does not occur in the short marker followed by `t`.
    let bt = bare_cursor_bytes() + t;
    if occurs_in(bt, cursor_bytes()) {
        let j = choose|j: int| matches_at(bt, cursor_bytes(), j);
        if j < 10 {
            assert(bt.subrange(j, j + 23)[0] == bt[j]);
            if j > 0 {
                assert(bt[j] == bare_cursor_bytes()[j]);
            } else {
                assert(bt.subrange(j, j + 23)[2] == bt[2]);
                assert(bt[2] == bare_cursor_bytes()[2]);
                assert(cursor_bytes()[2] == 0x75u8) by {
                    reveal_strlit("<|user_cursor_is_here|>");
                    lemma_ascii_literal_bytes(CURSOR_MARKER);
                }
                assert(bare_cursor_bytes()[2] == 0x63u8) by {
                    reveal_strlit("<|cursor|>");
                    lemma_ascii_literal_bytes(BARE_CURSOR_MARKER);
                }
            }
        } else {
            let jt = j - 10;
            assert(t.subrange(jt, jt + 23) =~= bt.subrange(j, j + 23));
            assert(matches_at(t, cursor_bytes(), jt));
        }
    }
    lemma_absent_marker_unchanged(bt, cursor_bytes());
}

/// A forced completion writes the forced block whatever the model answered,
/// the empty answer included.
pub proof fn lemma_forced_completion_ignores_answer(input: Seq<u8>, completion: Seq<u8>, other: Seq<u8>)
    ensures
        chosen_insertion(input, completion, true) == FORCED_COMPLETION.spec_bytes(),
        chosen_insertion(input, completion, true) == chosen_insertion(input, other, true),
{
}

/// An excerpt holding any JavaScript hint (`.js`, `function`, `const`) gets
/// the JavaScript completion, whatever other hints it holds.
pub proof fn lemma_javascript_hint(b: Seq<u8>, hint: Seq<u8>)
    requires
        hint == ".js".spec_bytes() || hint == "function".spec_bytes() || hint
            == "const".spec_bytes(),
        occurs_in(b, hint),
    ensures
        spec_detect_language(b) == FallbackLanguage::JavaScript,
        fallback_text(spec_detect_language(b)) == FALLBACK_JS,
{
}

/// An excerpt with no JavaScript hint and any Python hint (`.py`, `def `,
/// `import `) gets the Python completion.
pub proof fn lemma_python_hint(b: Seq<u8>, hint: Seq<u8>)
    requires
        hint == ".py".spec_bytes() || hint == "def ".spec_bytes() || hint == "import ".spec_bytes(),
        occurs_in(b, hint),
        !occurs_in(b, ".js".spec_bytes()),
        !occurs_in(b, "function".spec_bytes()),
        !occurs_in(b, "const".spec_bytes()),
    ensures
        spec_detect_language(b) == FallbackLanguage::Python,
        fallback_text(spec_detect_language(b)) == FALLBACK_PY,
{
}

/// An excerpt with no JavaScript or Python hint and any Rust hint (`.rs`,
/// `fn `, `pub `, `struct `) gets the Rust completion.
pub proof fn lemma_rust_hint(b: Seq<u8>, hint: Seq<u8>)
    requires
        hint == ".rs".spec_bytes() || hint == "fn ".spec_bytes() || hint == "pub ".spec_bytes()
            || hint == "struct ".spec_bytes(),
        occurs_in(b, hint),
        !occurs_in(b, ".js".spec_bytes()),
        !occurs_in(b, "function".spec_bytes()),
        !occurs_in(b, "const".spec_bytes()),
        !occurs_in(b, ".py".spec_bytes()),
        !occurs_in(b, "def ".spec_bytes()),
        !occurs_in(b, "import ".spec_bytes()),
    ensures
        spec_detect_language(b) == FallbackLanguage::Rust,
        fallback_text(spec_detect_language(b)) == FALLBACK_RS,
{
}

/// An excerpt with no hint at all gets the plain completion.
pub proof fn lemma_no_hint(b: Seq<u8>)
    requires
        !occurs_in(b, ".js".spec_bytes()),
        !occurs_in(b, "function".spec_bytes()),
        !occurs_in(b, "const".spec_bytes()),
        !occurs_in(b, ".py".spec_bytes()),
        !occurs_in(b, "def ".spec_bytes()),
        !occurs_in(b, "import ".spec_bytes()),
        !occurs_in(b, ".rs".spec_bytes()),
        !occurs_in(b, "fn ".spec_bytes()),
        !occurs_in(b, "pub ".spec_bytes()),
        !occurs_in(b, "struct ".spec_bytes()),
    ensures
        spec_detect_language(b) == FallbackLanguage::Plain,
        fallback_text(spec_detect_language(b)) == FALLBACK_TXT,
{
}

/// Writing a hint into any text makes it occur there, so for instance any
/// text holding `struct ` and no JavaScript or Python hint is Rust.
pub proof fn lemma_hint_occurs_in_text(a: Seq<u8>, hint: Seq<u8>, t: Seq<u8>)
    ensures
        occurs_in(a + hint + t, hint),
{
    let b = a + hint + t;
    assert(b.subrange(a.len() as int, (a.len() + hint.len()) as int) =~= hint);
    assert(matches_at(b, hint, a.len() as int));
}

} // verus!
