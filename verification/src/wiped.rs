//! A 64-byte scratch block that is overwritten with zeros when it is
//! dropped. The bytes live in a `zeroize::Zeroizing`.

use vstd::prelude::*;
use zeroize::Zeroizing;

verus! {

/// Sixty-four bytes inside a `zeroize::Zeroizing`, whose `Drop` overwrites
/// them with zeros. What it holds is known only through `held_bytes`.
#[verifier::external_body]
pub struct WipedBlock {
    inner: Zeroizing<[u8; 64]>,
}

/// The 64 bytes that a `WipedBlock` holds.
pub uninterp spec fn held_bytes(block: WipedBlock) -> Seq<u8>;

/// `Zeroizing::new`, which moves the array into the wrapper unchanged: the
/// new block holds exactly these bytes.
#[verifier::external_body]
pub(crate) fn wiped_new(bytes: [u8; 64]) -> (block: WipedBlock)
    ensures
        held_bytes(block) == bytes@,
{
    WipedBlock { inner: Zeroizing::new(bytes) }
}

/// `DerefMut::deref_mut` of `Zeroizing`, which hands out the array it holds,
/// here as the target of `copy_from_slice`: afterwards the block holds the
/// 64 bytes of `src`.
#[verifier::external_body]
pub(crate) fn wiped_store(block: &mut WipedBlock, src: &[u8])
    requires
        src@.len() == 64,
    ensures
        held_bytes(*final(block)) == src@,
{
    block.inner.copy_from_slice(src)
}

/// `Deref::deref` of `Zeroizing`, which lends the array it holds: the bytes
/// read are the bytes held.
#[verifier::external_body]
pub(crate) fn wiped_bytes(block: &WipedBlock) -> (bytes: &[u8; 64])
    ensures
        bytes@ == held_bytes(*block),
{
    &block.inner
}

} // verus!
