//! The edit prediction request and response, and what the server decides to
//! do with a request.
use vstd::prelude::*;
use vstd::string::*;
use vstd::utf8::*;

use crate::completion::{
    fallback_output, fallback_text, sample_output_excerpt, spec_detect_language, spliced,
    SAMPLE_OUTPUT_EXCERPT,
};
use crate::context::spec_extract_context;
use crate::search::{contains_bytes, matches_at, occurs_in};
use crate::text::lemma_ascii_literal_bytes;

verus! {

/// The outside type `serde_json::Value`, declared so that a request can carry
/// the editor's `input_events` through unread; nothing is claimed of it.
#[verifier::external_type_specification]
#[verifier::external_body]
pub struct ExJsonValue(serde_json::Value);

/// An edit prediction request from the editor.
pub struct PredictEditsRequest {
    pub input_excerpt: Option<String>,
    pub input_events: Option<serde_json::Value>,
    pub outline: Option<String>,
    pub speculated_output: Option<String>,
}

/// The answer to an edit prediction request.
pub struct PredictEditsResponse {
    pub request_id: String,
    pub output_excerpt: String,
}

/// `c` is a lower-case hexadecimal digit.
pub open spec fn is_lower_hex_digit(c: char) -> bool {
    ('0' <= c && c <= '9') || ('a' <= c && c <= 'f')
}

/// `s` is a version 4 (random) UUID of the RFC 4122 variant, written in the
/// hyphenated lower-case form `xxxxxxxx-xxxx-4xxx-Nxxx-xxxxxxxxxxxx`, where
/// `N` is one of `8`, `9`, `a`, `b`.
pub open spec fn is_hyphenated_v4_uuid(s: Seq<char>) -> bool {
    &&& s.len() == 36
    &&& forall|i: int|
        0 <= i < 36 ==> if i == 8 || i == 13 || i == 18 || i == 23 {
            s[i] == '-'
        } else {
            is_lower_hex_digit(#[trigger] s[i])
        }
    &&& s[14] == '4'
    &&& (s[19] == '8' || s[19] == '9' || s[19] == 'a' || s[19] == 'b')
}

/// A fresh request id: `uuid::Uuid::new_v4()` written by its `Display` impl
/// (`to_string`). The id is random; the contract states only its form, which
/// `new_v4` (version and variant bits) and the hyphenated lower-case encoding
/// of the `uuid` crate fix.
#[verifier::external_body]
fn new_request_id() -> (id: String)
    ensures
        is_hyphenated_v4_uuid(id@),
{
    uuid::Uuid::new_v4().to_string()
}

impl PredictEditsResponse {
    /// A response carrying `output_excerpt` under a fresh request id.
    pub fn new(output_excerpt: String) -> (res: Self)
        ensures
            res.output_excerpt == output_excerpt,
            is_hyphenated_v4_uuid(res.request_id@),
    {
        PredictEditsResponse { request_id: new_request_id(), output_excerpt }
    }
}

/// The switches that a request's query string and the server's settings give.
#[derive(Debug, Clone, Copy, PartialEq, Eq, Structural)]
pub struct RequestFlags {
    /// The query asks for debug output.
    pub force_debug: bool,
    /// Static completions are used instead of the language model.
    pub force_fallback: bool,
    /// The forced completion is written whatever the model answers.
    pub force_completion: bool,
    /// Debug output is on.
    pub should_debug: bool,
}

/// The switches that the query string `q` (its bytes) and the server's debug
/// and fallback settings give: `debug=true`, `fallback=true` and `force=true`
/// anywhere in the query turn on debug output, static completions and forced
/// completions.
pub open spec fn spec_request_flags(q: Seq<u8>, config_debug: bool, config_fallback: bool) -> RequestFlags {
    let force_debug = occurs_in(q, "debug=true".spec_bytes());
    RequestFlags {
        force_debug,
        force_fallback: occurs_in(q, "fallback=true".spec_bytes()) || config_fallback,
        force_completion: occurs_in(q, "force=true".spec_bytes()),
        should_debug: config_debug || force_debug,
    }
}

/// Reads the switches from the query string `query` and the server's debug
/// and fallback settings.
pub fn request_flags(query: &str, config_debug: bool, config_fallback: bool) -> (res: RequestFlags)
    ensures
        res == spec_request_flags(query.spec_bytes(), config_debug, config_fallback),
{
    let q = query.as_bytes();
    let force_debug = contains_bytes(q, "debug=true".as_bytes());
    let force_fallback = contains_bytes(q, "fallback=true".as_bytes()) || config_fallback;
    let force_completion = contains_bytes(q, "force=true".as_bytes());
    RequestFlags {
        force_debug,
        force_fallback,
        force_completion,
        should_debug: config_debug || force_debug,
    }
}

/// What to do with an edit prediction request.
pub enum PredictPlan {
    /// Refuse the request: it carries no excerpt.
    MissingExcerpt,
    /// Answer with this output excerpt.
    Respond(String),
    /// Answer with the sample excerpt.
    Sample,
    /// Ask the language model for a completion, with debug output as given;
    /// answer with the completed excerpt, or with the sample excerpt if that fails.
    Generate { debug: bool, force_completion: bool },
}

/// Decides what to do with `request` under `flags`: refuse it without an
/// excerpt; with static completions, write the excerpt's static completion at
/// its cursor, or answer the sample when the excerpt cannot be split; else ask
/// the language model.
pub fn plan_predict_edits(flags: &RequestFlags, request: &PredictEditsRequest) -> (res: PredictPlan)
    ensures
        match request.input_excerpt {
            None => res is MissingExcerpt,
            Some(text) => if flags.force_fallback {
                match spec_extract_context(encode_utf8(text@)) {
                    Ok((_, _, pos)) => res matches PredictPlan::Respond(out) && encode_utf8(out@)
                        == spliced(
                        encode_utf8(text@),
                        pos,
                        fallback_text(spec_detect_language(encode_utf8(text@))).spec_bytes(),
                    ),
                    Err(_) => res is Sample,
                }
            } else {
                res matches PredictPlan::Generate { debug, force_completion } && debug
                    == flags.should_debug && force_completion == flags.force_completion
            },
        },
{
    match &request.input_excerpt {
        None => PredictPlan::MissingExcerpt,
        Some(text) => {
            if flags.force_fallback {
                match fallback_output(text.as_str()) {
                    Some(out) => PredictPlan::Respond(out),
                    None => PredictPlan::Sample,
                }
            } else {
                PredictPlan::Generate {
                    debug: flags.should_debug,
                    force_completion: flags.force_completion,
                }
            }
        },
    }
}

/// An answer that carries an output excerpt, and whether it must not be cached.
pub struct ExcerptAnswer {
    pub output_excerpt: String,
    pub no_cache: bool,
}

/// The answer once the language model was asked: the completed excerpt, not
/// to be cached, when there is one; the sample excerpt when asking failed.
pub fn answer_after_generation(generated: Option<String>) -> (res: ExcerptAnswer)
    ensures
        match generated {
            Some(out) => res.output_excerpt == out && res.no_cache,
            None => res.output_excerpt@ == SAMPLE_OUTPUT_EXCERPT@ && !res.no_cache,
        },
{
    match generated {
        Some(output_excerpt) => ExcerptAnswer { output_excerpt, no_cache: true },
        None => ExcerptAnswer { output_excerpt: sample_output_excerpt(), no_cache: false },
    }
}

/// Appending `s`, which opens with `&` and whose rest does not hold `p`, to a
/// query makes no new occurrence of a pattern `p` that holds no `&`.
proof fn lemma_append_no_new_match(q: Seq<u8>, s: Seq<u8>, p: Seq<u8>)
    requires
        s.len() >= 1,
        s[0] == 0x26u8,
        p.len() >= 1,
        forall|i: int| 0 <= i < p.len() ==> #[trigger] p[i] != 0x26u8,
        !occurs_in(s.subrange(1, s.len() as int), p),
    ensures
        occurs_in(q + s, p) == occurs_in(q, p),
{
    let qs = q + s;
    let n = p.len() as int;
    if occurs_in(q, p) {
        let j = choose|j: int| matches_at(q, p, j);
        assert(qs.subrange(j, j + n) =~= q.subrange(j, j + n));
        assert(matches_at(qs, p, j));
    }
    if occurs_in(qs, p) {
        let j = choose|j: int| matches_at(qs, p, j);
        if j + n <= q.len() {
            assert(qs.subrange(j, j + n) =~= q.subrange(j, j + n));
            assert(matches_at(q, p, j));
        } else if j <= q.len() {
            let k = q.len() - j;
            assert(qs.subrange(j, j + n)[k] == qs[q.len() as int]);
            assert(qs[q.len() as int] == s[0]);
            assert(p[k] == 0x26u8);
        } else {
            let t = s.subrange(1, s.len() as int);
            let j2 = j - q.len() - 1;
            assert(t.subrange(j2, j2 + n) =~= qs.subrange(j, j + n));
            assert(matches_at(t, p, j2));
        }
    }
}

/// Adding `&debug=true` to a query turns on debug output and changes no other
/// switch, so the request is answered as before (`plan_predict_edits` reads
/// only the switches, and the debug switch only picks the debug setting).
pub proof fn lemma_debug_switch_only_logs(q: Seq<u8>, config_debug: bool, config_fallback: bool)
    ensures
        ({
            let before = spec_request_flags(q, config_debug, config_fallback);
            let after = spec_request_flags(
                q + "&debug=true".spec_bytes(),
                config_debug,
                config_fallback,
            );
            &&& after.force_fallback == before.force_fallback
            &&& after.force_completion == before.force_completion
            &&& after.force_debug
            &&& after.should_debug
        }),
{
    reveal_strlit("&debug=true");
    reveal_strlit("debug=true");
    reveal_strlit("fallback=true");
    reveal_strlit("force=true");
    lemma_ascii_literal_bytes("&debug=true");
    lemma_ascii_literal_bytes("debug=true");
    lemma_ascii_literal_bytes("fallback=true");
    lemma_ascii_literal_bytes("force=true");
    let s = "&debug=true".spec_bytes();
    let dbg = "debug=true".spec_bytes();
    let fb = "fallback=true".spec_bytes();
    let fc = "force=true".spec_bytes();
    assert(s =~= seq![0x26u8, 0x64, 0x65, 0x62, 0x75, 0x67, 0x3d, 0x74, 0x72, 0x75, 0x65]);
    assert(dbg =~= seq![0x64u8, 0x65, 0x62, 0x75, 0x67, 0x3d, 0x74, 0x72, 0x75, 0x65]);
    assert(fb =~= seq![0x66u8, 0x61, 0x6c, 0x6c, 0x62, 0x61, 0x63, 0x6b, 0x3d, 0x74, 0x72, 0x75, 0x65]);
    assert(fc =~= seq![0x66u8, 0x6f, 0x72, 0x63, 0x65, 0x3d, 0x74, 0x72, 0x75, 0x65]);
    let t = s.subrange(1, s.len() as int);
    assert(t =~= dbg);
    if occurs_in(t, fb) {
        let j = choose|j: int| matches_at(t, fb, j);
        assert(false);
    }
    if occurs_in(t, fc) {
        let j = choose|j: int| matches_at(t, fc, j);
        assert(t.subrange(j, j + 10)[0] == t[j]);
        assert(false);
    }
    lemma_append_no_new_match(q, s, fb);
    lemma_append_no_new_match(q, s, fc);
    let qs = q + s;
    assert(qs.subrange(q.len() + 1int, q.len() + 11int) =~= dbg);
    assert(matches_at(qs, dbg, q.len() + 1int));
}

/// Each switch is read from its own token alone: the fallback switch is on
/// exactly when the query holds `fallback=true` or the setting is on, whatever
/// other switches the query holds, and likewise for `force=true` and
/// `debug=true`.
pub proof fn lemma_switches_independent(q: Seq<u8>, config_debug: bool, config_fallback: bool)
    ensures
        spec_request_flags(q, config_debug, config_fallback).force_fallback == (occurs_in(
            q,
            "fallback=true".spec_bytes(),
        ) || config_fallback),
        spec_request_flags(q, config_debug, config_fallback).force_completion == occurs_in(
            q,
            "force=true".spec_bytes(),
        ),
        spec_request_flags(q, config_debug, config_fallback).force_debug == occurs_in(
            q,
            "debug=true".spec_bytes(),
        ),
        spec_request_flags(q, config_debug, config_fallback).should_debug == (config_debug
            || occurs_in(q, "debug=true".spec_bytes())),
{
}

} // verus!
