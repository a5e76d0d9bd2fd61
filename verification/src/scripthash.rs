//! Hashes of output scripts.

use crate::hashes::{sha256, sha256_digest, FullHash, MAX_DIGEST_INPUT};
use vstd::prelude::*;

verus! {

/// The hash by which an output script is indexed.
pub fn compute_script_hash(script: &[u8]) -> (hash: FullHash)
    requires
        script@.len() <= MAX_DIGEST_INPUT,
    ensures
        hash == sha256(script@),
{
    sha256_digest(script)
}

} // verus!
