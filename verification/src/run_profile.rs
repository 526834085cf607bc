//! The profile handler: turns the plain want-set tokens of a local
//! profile, already lifted out of their file format by the caller, into
//! validated dependency lists.

use vstd::prelude::*;
use crate::dependency::{Dependency, parse_token_list, tokens_parse_to, token_ok};
use crate::errors::SoftwareManagerError;

verus! {

/// The stateless profile tool.
#[derive(Debug)]
pub struct ProfileHandler;

/// The profile tool, freshly made; it holds no state.
pub fn profile_handler() -> (r: ProfileHandler) {
    ProfileHandler
}

impl ProfileHandler {
    /// Parses a profile's `"name-version"` tokens into an ordered
    /// dependency list, failing on the first malformed token.
    pub fn from_tokens_to_dependencies(&self, tokens: &Vec<String>) -> (r: Result<
        Vec<Dependency>,
        SoftwareManagerError,
    >)
        ensures
            match r {
                Ok(out) => tokens_parse_to(tokens@, out@),
                Err(e) => (exists|k: int| 0 <= k < tokens@.len() && !token_ok(#[trigger] tokens@[k]@))
                    && e matches SoftwareManagerError::ParseDependencyError(_),
            },
    {
        parse_token_list(tokens)
    }
}

} // verus!
