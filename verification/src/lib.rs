//! Koma source SDK: what a manga source needs to answer the Koma host,
//! with the byte-level JSON and HTTP helpers sources are built from.
pub mod envelope;
pub mod fetch;
pub mod host;
pub mod json_utils;
pub mod pieces;
pub mod request;
pub mod result;
pub mod source;
pub mod sources;
pub mod units;

pub use crate::fetch::{
    build_get_request, build_post_request, decode_json_body_into, fetch_error_code,
    parse_status_code, FetchError,
};
