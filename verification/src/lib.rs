//! zepm: middleware between Zed's edit prediction and a llama.cpp infill server.
//!
//! The library holds the text logic of the server: splitting an editor
//! excerpt at its cursor inside the editable region, choosing a completion,
//! and writing it back in place of the cursor marker, together with reading
//! the request switches and the server settings.

pub mod config;
pub mod completion;
pub mod context;
pub mod markers;
pub mod request;
pub mod search;
pub mod text;

pub use crate::completion::{
    complete_at_cursor, complete_excerpt, detect_language, fallback_output, get_fallback_completion,
    sample_output_excerpt, splice_at_cursor, strip_cursor_markers, strip_marker, test_completion_output,
    FallbackLanguage,
};
pub use crate::config::{decimal_text, infill_url, parse_bool_flag, parse_decimal_u32, parse_max_tokens, parse_port};
pub use crate::context::{extract_context, ExtractError};
pub use crate::markers::{BARE_CURSOR_MARKER, CURSOR_MARKER, EDITABLE_REGION_END_MARKER, EDITABLE_REGION_START_MARKER};
pub use crate::request::{
    answer_after_generation, plan_predict_edits, request_flags, ExcerptAnswer, PredictEditsRequest, PredictEditsResponse, PredictPlan,
    RequestFlags,
};
