//! Building blocks for creating one-parent candidate commits from a
//! standalone directory: request validation, the ordered walk of a source
//! listing, changed-path reporting and commit metadata.

pub mod commit;
pub mod error;
pub mod flow;
pub mod git;
pub mod laws;
pub mod order;
pub mod request;
pub mod source;
pub mod text;
pub mod validate;
