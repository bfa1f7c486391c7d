//! The textual patch capability, behind two trusted adapters.  A patch is
//! carried as its serialized byte form; producing one and applying one are the
//! only operations, and both are named rather than spelled out.

use vstd::prelude::*;

verus! {

/// The serialized patch that turns `old_text` into `new_text`.
/// `diffy::create_patch_bytes` computes it from its two inputs alone.
pub uninterp spec fn patch_of(old_text: Seq<u8>, new_text: Seq<u8>) -> Seq<u8>;

/// What applying a serialized patch to a base text yields: the patched text,
/// or `None` when the patch does not parse or does not fit the base.  The
/// result depends on the two byte strings alone.
pub uninterp spec fn apply_of(base: Seq<u8>, patch: Seq<u8>) -> Option<Seq<u8>>;

/// Relies on `diffy::create_patch_bytes` and `diffy::Patch::to_bytes`: the
/// patch is a deterministic function of the two texts, and applying it to
/// `old_text` yields `new_text` exactly.
#[verifier::external_body]
pub fn diff_bytes(old_text: &[u8], new_text: &[u8]) -> (r: Vec<u8>)
    ensures
        r@ == patch_of(old_text@, new_text@),
        apply_of(old_text@, r@) == Some(new_text@),
{
    diffy::create_patch_bytes(old_text, new_text).to_bytes()
}

/// Relies on `diffy::Patch::from_bytes` and `diffy::apply_bytes`: the result
/// depends on the base and the patch bytes alone, and both parse and apply
/// failures are reported as errors.
#[verifier::external_body]
pub fn apply_patch(base: &[u8], patch: &[u8]) -> (r: Option<Vec<u8>>)
    ensures
        match r {
            Some(v) => apply_of(base@, patch@) == Some(v@),
            None => apply_of(base@, patch@) is None,
        },
{
    match diffy::Patch::from_bytes(patch) {
        Err(_) => None,
        Ok(p) => match diffy::apply_bytes(base, &p) {
            Ok(v) => Some(v),
            Err(_) => None,
        },
    }
}

} // verus!
