//! The error of the layered filesystem that archives are read from and
//! written to. The filesystem itself is driven by the caller, who hands the
//! outcome of each read, write or listing to the cache.

use vstd::prelude::*;

verus! {

#[verifier::external_type_specification]
#[verifier::external_body]
pub struct ExLayeredFilesystemError(mila::LayeredFilesystemError);

} // verus!
