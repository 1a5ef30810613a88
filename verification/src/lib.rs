//! Default response headers for an HTTP middleware pipeline.
//!
//! [`defaults::DefaultHeaders`] holds a validated, ordered multi-map of
//! header names to header values, built once at application startup. Applying
//! it to a response's header map inserts each configured name's values only
//! when the response does not already carry a header with that name; headers
//! set by the downstream handler are never reordered, removed or overwritten.

pub mod defaults;
pub mod headers;
