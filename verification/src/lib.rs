//! Decoding of `application/x-www-form-urlencoded` text into a mapping from
//! parameter name to the ordered list of its values.
//!
//! A query string or a request body such as `a=b&a=c&d=e` is decoded into
//! pairs and the pairs are grouped by name, so that a name that appears
//! several times keeps all of its values, in the order in which they appeared.

pub mod decode;
pub mod model;
pub mod params;
pub mod parse;

pub use decode::decode;
pub use params::ParameterMap;
pub use parse::{
    combine_duplicates, create_param_hashmap, parse_body, parse_query, RequestParts,
    UrlEncodedMixin,
};
