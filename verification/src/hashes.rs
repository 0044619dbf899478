use vstd::prelude::*;
use vstd::string::StringExecFns;

verus! {

/// The hashing primitive applied to every key before it enters a subtree.
/// This library uses the identity placeholder digest: a key's digest is the
/// key itself, so the digest of a combined pair is plain concatenation.
pub fn encode(data: String) -> (res: String)
    ensures
        res == data,
{
    data
}

/// Digest of the concatenation of two digests: the internal-node combination
/// step `H(left || right)`.
pub fn combine(left: &String, right: &String) -> (res: String)
    ensures
        res@ == left@ + right@,
{
    let joined = left.clone().concat(right.as_str());
    encode(joined)
}

} // verus!
