//! A small JSON-like parser: a recursive-descent recognizer that turns a
//! text into a tree of typed values, with structured errors carrying the
//! offset at which parsing failed.
//!
//! The grammar is deliberately small. String literals are taken verbatim
//! up to the closing quote — no escape sequences are interpreted, so an
//! embedded quote cannot be represented. A numeric literal with an
//! exponent marker but no decimal point is accepted and is a float. An
//! empty object `{}` is rejected while an empty array `[]` is accepted.
//! Nesting is bounded by an explicit depth budget instead of the call
//! stack alone.
pub mod grammar;
pub mod laws;
pub mod parser;
pub mod value;

pub use grammar::Parsed;
pub use laws::lemma_dedup_keys_unique;
pub use laws::lemma_parse_deterministic;
pub use laws::lemma_parse_exp_literal;
pub use laws::lemma_parse_frac_exp_literal;
pub use laws::lemma_parse_frac_literal;
pub use laws::lemma_parse_int_literal;
pub use laws::lemma_parse_prefix;
pub use laws::lemma_parse_wf;
pub use laws::lemma_upsert_keys_unique;
pub use laws::lemma_ws_before_bracket;
pub use parser::chars_of;
pub use parser::parse_array;
pub use parser::parse_bool;
pub use parser::parse_json;
pub use parser::parse_json_with_limit;
pub use parser::parse_null;
pub use parser::parse_num;
pub use parser::parse_object;
pub use parser::parse_string;
pub use parser::parse_value;
pub use parser::skip_ws;
pub use parser::DEFAULT_MAX_DEPTH;
pub use value::ErrModel;
pub use value::FloatLit;
pub use value::JsonValue;
pub use value::Num;
pub use value::ParseError;
pub use value::ValueModel;
