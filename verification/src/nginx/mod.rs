//! Reading an existing Nginx configuration, to propose one for this tool.
use vstd::prelude::*;

pub mod candidates;
pub mod files;
pub mod scan;
pub mod source;
pub mod syntax;

verus! {

} // verus!
