//! Rewriting programs into shorter ones: loops, macros and table scans in place
//! of literals.

pub mod delimited;
pub mod delta;
pub mod draft;
pub mod guarantees;
pub mod json;
pub mod loops;
pub mod macros;
pub mod program;
pub mod refs;
pub mod rewrite;
pub mod scan;
pub mod suffix;
pub mod table;
pub mod token;

pub use delimited::{count_delimiters_quoted, detect_scan_lit, split_fields_quoted_raw};
pub use delta::{delta_bytes, estimate_delta_u8_gain};
pub use json::{
    detect_scan_json, extract_json_obj, json_str_end, json_val_end, parse_json_kv,
    parse_json_kv_pos,
};
pub use loops::{detect_loop, loop_mdl_gain, MIN_LOOP_BODY, MIN_LOOP_COUNT};
pub use macros::{
    count_nonoverlap, find_best_macro, find_candidate_patterns_rk, find_first,
    find_shortening_macro, macro_mdl_gain, split_and_replace_lit, MAX_MACRO_LEN, MIN_MACRO_LEN,
    MIN_MACRO_OCCUR,
};
pub use program::SynthProgram;
pub use rewrite::PatternSynthesizer;
pub use scan::detect_scan_best;
pub use suffix::{
    build_lcp_array, build_suffix_array, find_long_macro_by_sa, SA_MAX_PAT_LEN, SA_MIN_PAT_LEN,
    SA_THRESHOLD,
};
pub use table::{ScanResult, MIN_SCAN_ROWS};
pub use token::{leb_len, tokens_to_bytes, SynthToken};
